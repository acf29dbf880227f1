//! The ZIP container, read and written through the zip crate. An archive's
//! entries are modelled as a sequence of (name bytes, content bytes).
use std::io::Cursor;
use std::io::Read;
use std::io::Write;
use zip::result::ZipError;
use zip::write::SimpleFileOptions;
use zip::{ZipArchive, ZipWriter};
use vstd::prelude::*;
use vstd::string::StringSliceAdditionalSpecFns;

verus! {

#[verifier::external_type_specification]
#[verifier::external_body]
#[verifier::reject_recursive_types(T)]
pub struct ExCursor<T>(Cursor<T>);

#[verifier::external_type_specification]
#[verifier::external_body]
#[verifier::reject_recursive_types(R)]
pub struct ExZipArchive<R>(ZipArchive<R>);


#[verifier::external_type_specification]
#[verifier::external_body]
pub struct ExZipError(ZipError);

/// An archive read from memory.
pub type Archive = ZipArchive<Cursor<Vec<u8>>>;

/// An archive being written to memory. zip's writer is bound by `Write` and
/// `Seek`, traits that Verus does not take as bounds, so it is held here.
#[verifier::external_body]
pub struct ArchiveWriter {
    inner: ZipWriter<Cursor<Vec<u8>>>,
}

/// An entry of an archive: its name, its decompressed content, and the code
/// of its compression method in the central directory.
pub type Entry = (Seq<u8>, Seq<u8>, u16);

/// The entries that zip's reader finds in the bytes of an archive, in the
/// order of its central directory.
pub uninterp spec fn zip_entries(b: Seq<u8>) -> Seq<Entry>;

/// Whether zip's reader accepts the bytes as an archive.
pub uninterp spec fn zip_readable(b: Seq<u8>) -> bool;

/// Whether zip's reader can decompress entry `i` of the archive in the bytes.
pub uninterp spec fn zip_entry_readable(b: Seq<u8>, i: nat) -> bool;

/// The bytes that an opened archive reads from.
pub uninterp spec fn archive_bytes(a: ZipArchive<Cursor<Vec<u8>>>) -> Seq<u8>;

/// The entries of an opened archive.
pub open spec fn archive_entries(a: ZipArchive<Cursor<Vec<u8>>>) -> Seq<Entry> {
    zip_entries(archive_bytes(a))
}

/// The entries written so far to an archive writer, in order.
pub uninterp spec fn written_entries(w: ArchiveWriter) -> Seq<Entry>;

/// Relies on zip::ZipArchive::new: reads the central directory of the bytes,
/// a result that depends on the bytes alone.
#[verifier::external_body]
pub(crate) fn open_archive(bytes: Vec<u8>) -> (r: Result<Archive, ZipError>)
    ensures
        r is Ok <==> zip_readable(bytes@),
        r is Ok ==> archive_bytes(r->Ok_0) == bytes@,
{
    ZipArchive::new(Cursor::new(bytes))
}

/// Relies on zip::ZipArchive::len: the number of entries.
#[verifier::external_body]
pub(crate) fn entry_count(a: &Archive) -> (r: usize)
    ensures
        r == archive_entries(*a).len(),
{
    a.len()
}

/// Relies on zip::ZipArchive::name_for_index: the name of an entry, read from
/// the central directory.
#[verifier::external_body]
pub(crate) fn entry_name(a: &Archive, i: usize) -> (r: Option<Vec<u8>>)
    ensures
        i < archive_entries(*a).len() ==> r is Some && r->Some_0@ == archive_entries(*a)[i as int].0,
        i >= archive_entries(*a).len() ==> r is None,
{
    match a.name_for_index(i) {
        Some(n) => Some(n.as_bytes().to_vec()),
        None => None,
    }
}

/// Relies on zip::ZipArchive::by_index and its Read impl: the decompressed
/// content of an entry, read from memory, so that success depends on the
/// bytes alone.
#[verifier::external_body]
pub(crate) fn entry_data(a: &mut Archive, i: usize) -> (r: Result<Vec<u8>, ZipError>)
    ensures
        archive_bytes(*final(a)) == archive_bytes(*old(a)),
        i < archive_entries(*old(a)).len() ==> (r is Ok <==> zip_entry_readable(archive_bytes(*old(a)), i as nat)),
        r is Ok ==> i < archive_entries(*old(a)).len() && r->Ok_0@ == archive_entries(*old(a))[i as int].1,
{
    let mut file = a.by_index(i)?;
    let mut data = Vec::new();
    file.read_to_end(&mut data)?;
    Ok(data)
}

/// Relies on zip::ZipWriter::new: a writer with no entries yet.
#[verifier::external_body]
pub(crate) fn new_writer() -> (r: ArchiveWriter)
    ensures
        written_entries(r) == Seq::<Entry>::empty(),
{
    ArchiveWriter { inner: ZipWriter::new(Cursor::new(Vec::new())) }
}

/// Relies on zip::ZipArchive::by_index_raw and zip::ZipWriter::raw_copy_file:
/// copies an entry's compressed data, name and compression method unchanged.
#[verifier::external_body]
pub(crate) fn copy_entry(w: &mut ArchiveWriter, a: &mut Archive, i: usize) -> (r: Result<(), ZipError>)
    ensures
        archive_bytes(*final(a)) == archive_bytes(*old(a)),
        r is Ok ==> i < archive_entries(*old(a)).len() && written_entries(*final(w)) == written_entries(*old(w)).push(
            archive_entries(*old(a))[i as int],
        ),
{
    let file = a.by_index_raw(i)?;
    w.inner.raw_copy_file(file)
}

/// Relies on zip::ZipWriter::start_file (default options: deflate) and its
/// Write impl: adds an entry with the given name and content.
#[verifier::external_body]
pub(crate) fn add_entry(w: &mut ArchiveWriter, name: &str, data: &[u8]) -> (r: Result<(), ZipError>)
    ensures
        r is Ok ==> written_entries(*final(w)).len() == written_entries(*old(w)).len() + 1,
        r is Ok ==> written_entries(*final(w)).drop_last() == written_entries(*old(w)),
        r is Ok ==> written_entries(*final(w)).last().0 == name.spec_bytes(),
        r is Ok ==> written_entries(*final(w)).last().1 == data@,
{
    w.inner.start_file(name, SimpleFileOptions::default())?;
    w.inner.write_all(data)?;
    Ok(())
}

/// Relies on zip::ZipWriter::finish: writes the central directory. Reading
/// the finished bytes back gives the entries written, in order (the writer
/// refuses a name given twice).
#[verifier::external_body]
pub(crate) fn finish_archive(w: ArchiveWriter) -> (r: Result<Vec<u8>, ZipError>)
    ensures
        r is Ok ==> zip_entries(r->Ok_0@) == written_entries(w),
{
    let cursor = w.inner.finish()?;
    Ok(cursor.into_inner())
}

} // verus!
