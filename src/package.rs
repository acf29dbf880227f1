//! Reading the three dates out of a package, and writing a new package that
//! holds new ones.
use crate::archive::{
    add_entry, archive_bytes, archive_entries, zip_entry_readable, zip_readable, copy_entry, entry_count, entry_data, entry_name, finish_archive,
    new_writer, open_archive, written_entries, zip_entries, Archive, Entry,
};
use crate::bytes::bytes_eq;
use crate::extract::{element_text, text_of};
use crate::props::{
    default_app_bytes, first_invalid, patched_app, patched_core, owned_bytes, patch_app,
    patch_core, validate, ArchiveError, Field, MetaError, Metadata, APP_PART, CORE_PART, CREATED_TAG,
    LAST_PRINTED_TAG, MODIFIED_TAG,
};
use crate::xml::{escaped, token_views, tokenize, tokens_cover, xml_tokens, Token};
use vstd::prelude::*;
use vstd::string::StringSliceAdditionalSpecFns;
use vstd::utf8::{encode_utf8, encode_utf8_decode_utf8, valid_utf8};

verus! {

/// Relies on String::from_utf8: succeeds exactly on valid UTF-8, keeping the bytes.
#[verifier::external_body]
fn utf8_string(b: Vec<u8>) -> (r: Option<String>)
    ensures
        r is Some <==> valid_utf8(b@),
        r is Some ==> encode_utf8(r->Some_0@) == b@,
{
    String::from_utf8(b).ok()
}

/// The index of the first entry from `i` on with the given name.
pub open spec fn entry_index_from(es: Seq<Entry>, name: Seq<u8>, i: int) -> Option<int>
    decreases es.len() - i,
{
    if i < 0 || i >= es.len() {
        None
    } else if es[i].0 == name {
        Some(i)
    } else {
        entry_index_from(es, name, i + 1)
    }
}

/// The content of the first entry with the given name.
pub open spec fn entry_named(es: Seq<Entry>, name: Seq<u8>) -> Option<Seq<u8>> {
    match entry_index_from(es, name, 0) {
        Some(i) => Some(es[i].1),
        None => None,
    }
}

/// The index of the first entry named `name`.
fn find_entry(a: &Archive, name: &str) -> (r: Option<usize>)
    ensures
        r matches Some(i) ==> entry_index_from(archive_entries(*a), name.spec_bytes(), 0) == Some(i as int)
            && i < archive_entries(*a).len(),
        r is None ==> entry_index_from(archive_entries(*a), name.spec_bytes(), 0) is None,
{
    let ghost es = archive_entries(*a);
    let target = owned_bytes(name);
    let count = entry_count(a);
    let mut i: usize = 0;
    while i < count
        invariant
            count == es.len(),
            es == archive_entries(*a),
            target@ == name.spec_bytes(),
            i <= count,
            entry_index_from(es, target@, 0) == entry_index_from(es, target@, i as int),
        decreases count - i,
    {
        match entry_name(a, i) {
            Some(n) => {
                if bytes_eq(n.as_slice(), target.as_slice()) {
                    return Some(i);
                }
            },
            None => {},
        }
        i = i + 1;
    }
    None
}

/// Whether zip can read the first entry of the given name, where there is one.
pub open spec fn part_readable(b: Seq<u8>, name: Seq<u8>) -> bool {
    match entry_index_from(zip_entries(b), name, 0) {
        Some(i) => zip_entry_readable(b, i as nat),
        None => true,
    }
}

/// The core-properties part of the archive in the bytes.
pub open spec fn core_of(b: Seq<u8>) -> Option<Seq<u8>> {
    entry_named(zip_entries(b), CORE_PART.spec_bytes())
}

/// The extended-properties part of the archive in the bytes.
pub open spec fn app_of(b: Seq<u8>) -> Option<Seq<u8>> {
    entry_named(zip_entries(b), APP_PART.spec_bytes())
}

/// Reads the entry named `name`, if there is one.
fn read_entry(a: &mut Archive, name: &str) -> (r: Result<Option<Vec<u8>>, MetaError>)
    ensures
        archive_bytes(*final(a)) == archive_bytes(*old(a)),
        r is Ok <==> part_readable(archive_bytes(*old(a)), name.spec_bytes()),
        r is Ok && r->Ok_0 is Some ==> entry_named(archive_entries(*old(a)), name.spec_bytes()) == Some(r->Ok_0->Some_0@),
        r is Ok && r->Ok_0 is None ==> entry_named(archive_entries(*old(a)), name.spec_bytes()) is None,
        r is Err ==> r->Err_0 == MetaError::Archive(ArchiveError::Corrupt),
        entry_named(archive_entries(*old(a)), name.spec_bytes()) is None ==> r == Ok::<Option<Vec<u8>>, MetaError>(None),
{
    match find_entry(a, name) {
        None => Ok(None),
        Some(i) => match entry_data(a, i) {
            Ok(d) => Ok(Some(d)),
            Err(_) => Err(MetaError::Archive(ArchiveError::Corrupt)),
        },
    }
}

/// Whether an entry is one of the two property parts that a save replaces.
pub open spec fn is_property_part(name: Seq<u8>) -> bool {
    name == CORE_PART.spec_bytes() || name == APP_PART.spec_bytes()
}

/// The entries among the first `n` that a save copies unchanged, in order.
pub open spec fn kept_upto(es: Seq<Entry>, n: nat) -> Seq<Entry>
    decreases n,
{
    if n == 0 || n > es.len() {
        Seq::empty()
    } else if is_property_part(es[n - 1].0) {
        kept_upto(es, (n - 1) as nat)
    } else {
        kept_upto(es, (n - 1) as nat).push(es[n - 1])
    }
}

/// The entries that a save copies unchanged, in order.
pub open spec fn kept(es: Seq<Entry>) -> Seq<Entry> {
    kept_upto(es, es.len())
}

/// `out` is what saving `src` with the given values writes: the entries other
/// than the property parts, unchanged (compression method included) and in
/// order; then the core part with
/// the created and modified values replaced; then the extended part with the
/// last-printed value replaced, or a new one where `src` has none and the
/// value is not empty.
pub open spec fn saved(
    src: Seq<Entry>,
    out: Seq<Entry>,
    created: Seq<u8>,
    modified: Seq<u8>,
    last_printed: Seq<u8>,
) -> bool {
    let k = kept(src);
    let n = k.len() as int;
    &&& entry_named(src, CORE_PART.spec_bytes()) is Some
    &&& out.len() >= n + 1
    &&& out.subrange(0, n) == k
    &&& out[n].0 == CORE_PART.spec_bytes()
    &&& patched_core(entry_named(src, CORE_PART.spec_bytes())->Some_0, created, modified) == Some(out[n].1)
    &&& match patched_app(entry_named(src, APP_PART.spec_bytes()), last_printed) {
        Some(Some(app)) => out.len() == n + 2 && out[n + 1].0 == APP_PART.spec_bytes() && out[n + 1].1 == app,
        Some(None) => out.len() == n + 1,
        None => false,
    }
}

/// Everything a save reads is there and can be read and patched, so that only
/// writing the new archive is left.
pub open spec fn save_inputs_ok(b: Seq<u8>, created: Seq<u8>, modified: Seq<u8>, last_printed: Seq<u8>) -> bool {
    &&& zip_readable(b)
    &&& core_of(b) is Some
    &&& part_readable(b, CORE_PART.spec_bytes())
    &&& patched_core(core_of(b)->Some_0, created, modified) is Some
    &&& part_readable(b, APP_PART.spec_bytes())
    &&& patched_app(app_of(b), last_printed) is Some
}

/// Writes a new package from `container`: every entry but the property parts
/// copied as it is, then the patched property parts. The values are checked
/// first; nothing is read before they pass.
pub fn save(container: Vec<u8>, created: &str, modified: &str, last_printed: &str) -> (r: Result<Vec<u8>, MetaError>)
    ensures
        first_invalid(created@, modified@, last_printed@) matches Some(f) ==> r == Err::<Vec<u8>, MetaError>(MetaError::Invalid(f)),
        first_invalid(created@, modified@, last_printed@) is None ==> !(r is Err && r->Err_0 is Invalid),
        first_invalid(created@, modified@, last_printed@) is None && !zip_readable(container@)
            ==> r == Err::<Vec<u8>, MetaError>(MetaError::Archive(ArchiveError::Corrupt)),
        first_invalid(created@, modified@, last_printed@) is None && zip_readable(container@) && core_of(container@) is None
            ==> r == Err::<Vec<u8>, MetaError>(MetaError::Archive(ArchiveError::MissingEntry)),
        first_invalid(created@, modified@, last_printed@) is None && zip_readable(container@) && core_of(container@) is Some
            && !part_readable(container@, CORE_PART.spec_bytes())
            ==> r == Err::<Vec<u8>, MetaError>(MetaError::Archive(ArchiveError::Corrupt)),
        first_invalid(created@, modified@, last_printed@) is None && zip_readable(container@) && core_of(container@) is Some
            && part_readable(container@, CORE_PART.spec_bytes())
            && patched_core(core_of(container@)->Some_0, escaped(created.spec_bytes()), escaped(modified.spec_bytes())) is None
            ==> r is Err && r->Err_0 is Xml,
        first_invalid(created@, modified@, last_printed@) is None && zip_readable(container@) && core_of(container@) is Some
            && part_readable(container@, CORE_PART.spec_bytes())
            && patched_core(core_of(container@)->Some_0, escaped(created.spec_bytes()), escaped(modified.spec_bytes())) is Some
            && !part_readable(container@, APP_PART.spec_bytes())
            ==> r == Err::<Vec<u8>, MetaError>(MetaError::Archive(ArchiveError::Corrupt)),
        first_invalid(created@, modified@, last_printed@) is None && zip_readable(container@) && core_of(container@) is Some
            && part_readable(container@, CORE_PART.spec_bytes())
            && patched_core(core_of(container@)->Some_0, escaped(created.spec_bytes()), escaped(modified.spec_bytes())) is Some
            && part_readable(container@, APP_PART.spec_bytes())
            && patched_app(app_of(container@), escaped(last_printed.spec_bytes())) is None
            ==> r is Err && r->Err_0 is Xml,
        r is Err && r->Err_0 is Commit ==> first_invalid(created@, modified@, last_printed@) is None
            && save_inputs_ok(container@, escaped(created.spec_bytes()), escaped(modified.spec_bytes()), escaped(last_printed.spec_bytes())),
        r is Ok ==> first_invalid(created@, modified@, last_printed@) is None && saved(
            zip_entries(container@),
            zip_entries(r->Ok_0@),
            escaped(created.spec_bytes()),
            escaped(modified.spec_bytes()),
            escaped(last_printed.spec_bytes()),
        ),
{
    match validate(created, modified, last_printed) {
        Ok(()) => {},
        Err(e) => {
            return Err(e);
        },
    }
    let ghost src = zip_entries(container@);
    let mut archive = match open_archive(container) {
        Ok(a) => a,
        Err(_) => {
            return Err(MetaError::Archive(ArchiveError::Corrupt));
        },
    };
    let core = match read_entry(&mut archive, CORE_PART) {
        Ok(Some(d)) => d,
        Ok(None) => {
            return Err(MetaError::Archive(ArchiveError::MissingEntry));
        },
        Err(e) => {
            return Err(e);
        },
    };
    let new_core = match patch_core(core.as_slice(), created, modified) {
        Ok(b) => b,
        Err(e) => {
            return Err(e);
        },
    };
    let app = match read_entry(&mut archive, APP_PART) {
        Ok(a) => a,
        Err(e) => {
            return Err(e);
        },
    };
    let patched = match &app {
        Some(d) => patch_app(Some(d.as_slice()), last_printed),
        None => patch_app(None, last_printed),
    };
    let new_app = match patched {
        Ok(a) => a,
        Err(e) => {
            return Err(e);
        },
    };
    let core_name = owned_bytes(CORE_PART);
    let app_name = owned_bytes(APP_PART);
    let mut w = new_writer();
    let count = entry_count(&archive);
    let mut i: usize = 0;
    while i < count
        invariant
            archive_entries(archive) == src,
            count == src.len(),
            i <= count,
            core_name@ == CORE_PART.spec_bytes(),
            app_name@ == APP_PART.spec_bytes(),
            written_entries(w) == kept_upto(src, i as nat),
            first_invalid(created@, modified@, last_printed@) is None,
            entry_named(src, CORE_PART.spec_bytes()) is Some,
            src == zip_entries(container@),
            save_inputs_ok(container@, escaped(created.spec_bytes()), escaped(modified.spec_bytes()), escaped(last_printed.spec_bytes())),
        decreases count - i,
    {
        match entry_name(&archive, i) {
            Some(n) => {
                let skip = bytes_eq(n.as_slice(), core_name.as_slice()) || bytes_eq(n.as_slice(), app_name.as_slice());
                if !skip {
                    match copy_entry(&mut w, &mut archive, i) {
                        Ok(()) => {},
                        Err(_) => {
                            return Err(MetaError::Commit);
                        },
                    }
                }
            },
            None => {},
        }
        i = i + 1;
    }
    match add_entry(&mut w, CORE_PART, new_core.as_slice()) {
        Ok(()) => {},
        Err(_) => {
            return Err(MetaError::Commit);
        },
    }
    match &new_app {
        Some(b) => match add_entry(&mut w, APP_PART, b.as_slice()) {
            Ok(()) => {},
            Err(_) => {
                return Err(MetaError::Commit);
            },
        },
        None => {},
    }
    let ghost written = written_entries(w);
    let ghost k = kept(src);
    assert(written.subrange(0, k.len() as int) =~= k);
    match finish_archive(w) {
        Ok(b) => Ok(b),
        Err(_) => Err(MetaError::Commit),
    }
}

/// The text of the first element named `tag` in a part, under the tokens that
/// quick-xml's events give; none where it has none or cannot be read.
pub open spec fn field_text(part: Seq<u8>, tag: Seq<u8>) -> Option<Seq<u8>> {
    match xml_tokens(part) {
        Some(toks) => element_text(part, toks, tag),
        None => None,
    }
}

/// A field that is there and not empty.
pub open spec fn has_text(o: Option<Seq<u8>>) -> bool {
    o is Some && o->Some_0.len() > 0
}

/// The last-printed value of an extended part: its element's text, or empty
/// where there is no part or no element; none where the part cannot be read.
pub open spec fn last_printed_of(app: Option<Seq<u8>>) -> Option<Seq<u8>> {
    match app {
        None => Some(Seq::empty()),
        Some(a) => match xml_tokens(a) {
            None => None,
            Some(toks) => Some(
                match element_text(a, toks, LAST_PRINTED_TAG.spec_bytes()) {
                    Some(t) => t,
                    None => Seq::empty(),
                },
            ),
        },
    }
}

/// The three values that loading the bytes gives, where nothing is missing or unreadable.
pub open spec fn load_values(b: Seq<u8>) -> Option<(Seq<u8>, Seq<u8>, Seq<u8>)> {
    if zip_readable(b) && core_of(b) is Some && part_readable(b, CORE_PART.spec_bytes())
        && has_text(field_text(core_of(b)->Some_0, CREATED_TAG.spec_bytes()))
        && has_text(field_text(core_of(b)->Some_0, MODIFIED_TAG.spec_bytes()))
        && part_readable(b, APP_PART.spec_bytes()) && last_printed_of(app_of(b)) is Some {
        Some((
            field_text(core_of(b)->Some_0, CREATED_TAG.spec_bytes())->Some_0,
            field_text(core_of(b)->Some_0, MODIFIED_TAG.spec_bytes())->Some_0,
            last_printed_of(app_of(b))->Some_0,
        ))
    } else {
        None
    }
}

/// The text of one field, required to be present and not empty.
fn required_text(input: &[u8], toks: &Vec<Token>, name: &str, field: Field) -> (r: Result<Vec<u8>, MetaError>)
    requires
        tokens_cover(token_views(toks@), input@.len()),
    ensures
        r is Ok <==> has_text(element_text(input@, token_views(toks@), name.spec_bytes())),
        r is Ok ==> element_text(input@, token_views(toks@), name.spec_bytes()) == Some(r->Ok_0@),
        r is Err ==> r->Err_0 == MetaError::MissingField(field),
{
    let tag = owned_bytes(name);
    match text_of(input, toks, tag.as_slice()) {
        Some(t) => {
            if t.len() == 0 {
                Err(MetaError::MissingField(field))
            } else {
                Ok(t)
            }
        },
        None => Err(MetaError::MissingField(field)),
    }
}

/// Text from bytes that must be UTF-8.
fn text_for(b: Vec<u8>, field: Field) -> (r: Result<String, MetaError>)
    ensures
        r is Ok <==> valid_utf8(b@),
        r is Ok ==> encode_utf8(r->Ok_0@) == b@,
        r is Err ==> r->Err_0 == MetaError::Encoding(field),
{
    match utf8_string(b) {
        Some(s) => Ok(s),
        None => Err(MetaError::Encoding(field)),
    }
}

/// Reads the three values out of a package. A package without extended
/// properties, or whose extended properties lack the element, has an empty
/// last-printed value.
pub fn load(container: Vec<u8>) -> (r: Result<Metadata, MetaError>)
    ensures
        !zip_readable(container@) ==> r == Err::<Metadata, MetaError>(MetaError::Archive(ArchiveError::Corrupt)),
        zip_readable(container@) && core_of(container@) is None
            ==> r == Err::<Metadata, MetaError>(MetaError::Archive(ArchiveError::MissingEntry)),
        zip_readable(container@) && core_of(container@) is Some && !part_readable(container@, CORE_PART.spec_bytes())
            ==> r == Err::<Metadata, MetaError>(MetaError::Archive(ArchiveError::Corrupt)),
        zip_readable(container@) && core_of(container@) is Some && part_readable(container@, CORE_PART.spec_bytes())
            && xml_tokens(core_of(container@)->Some_0) is None ==> r is Err && r->Err_0 is Xml,
        zip_readable(container@) && core_of(container@) is Some && part_readable(container@, CORE_PART.spec_bytes())
            && xml_tokens(core_of(container@)->Some_0) is Some
            && !has_text(field_text(core_of(container@)->Some_0, CREATED_TAG.spec_bytes()))
            ==> r == Err::<Metadata, MetaError>(MetaError::MissingField(Field::Created)),
        zip_readable(container@) && core_of(container@) is Some && part_readable(container@, CORE_PART.spec_bytes())
            && has_text(field_text(core_of(container@)->Some_0, CREATED_TAG.spec_bytes()))
            && !has_text(field_text(core_of(container@)->Some_0, MODIFIED_TAG.spec_bytes()))
            ==> r == Err::<Metadata, MetaError>(MetaError::MissingField(Field::Modified)),
        zip_readable(container@) && core_of(container@) is Some && part_readable(container@, CORE_PART.spec_bytes())
            && has_text(field_text(core_of(container@)->Some_0, CREATED_TAG.spec_bytes()))
            && has_text(field_text(core_of(container@)->Some_0, MODIFIED_TAG.spec_bytes()))
            && !part_readable(container@, APP_PART.spec_bytes())
            ==> r == Err::<Metadata, MetaError>(MetaError::Archive(ArchiveError::Corrupt)),
        zip_readable(container@) && core_of(container@) is Some && part_readable(container@, CORE_PART.spec_bytes())
            && has_text(field_text(core_of(container@)->Some_0, CREATED_TAG.spec_bytes()))
            && has_text(field_text(core_of(container@)->Some_0, MODIFIED_TAG.spec_bytes()))
            && part_readable(container@, APP_PART.spec_bytes()) && last_printed_of(app_of(container@)) is None
            ==> r is Err && r->Err_0 is Xml,
        load_values(container@) matches Some(v) && valid_utf8(v.0) && valid_utf8(v.1) && valid_utf8(v.2) ==> r is Ok,
        r is Ok ==> load_values(container@) == Some((
            encode_utf8(r->Ok_0.created@),
            encode_utf8(r->Ok_0.modified@),
            encode_utf8(r->Ok_0.last_printed@),
        )),
{
    let ghost src = zip_entries(container@);
    let mut archive = match open_archive(container) {
        Ok(a) => a,
        Err(_) => {
            return Err(MetaError::Archive(ArchiveError::Corrupt));
        },
    };
    let core = match read_entry(&mut archive, CORE_PART) {
        Ok(Some(d)) => d,
        Ok(None) => {
            return Err(MetaError::Archive(ArchiveError::MissingEntry));
        },
        Err(e) => {
            return Err(e);
        },
    };
    let core_toks = match tokenize(core.as_slice()) {
        Ok(t) => t,
        Err(e) => {
            return Err(MetaError::Xml(e.position));
        },
    };
    let created = match required_text(core.as_slice(), &core_toks, CREATED_TAG, Field::Created) {
        Ok(t) => t,
        Err(e) => {
            return Err(e);
        },
    };
    let modified = match required_text(core.as_slice(), &core_toks, MODIFIED_TAG, Field::Modified) {
        Ok(t) => t,
        Err(e) => {
            return Err(e);
        },
    };
    let last_printed: Vec<u8> = match read_entry(&mut archive, APP_PART) {
        Ok(Some(app)) => {
            let app_toks = match tokenize(app.as_slice()) {
                Ok(t) => t,
                Err(e) => {
                    return Err(MetaError::Xml(e.position));
                },
            };
            let tag = owned_bytes(LAST_PRINTED_TAG);
            let t = match text_of(app.as_slice(), &app_toks, tag.as_slice()) {
                Some(t) => t,
                None => Vec::new(),
            };
            t
        },
        Ok(None) => Vec::new(),
        Err(e) => {
            return Err(e);
        },
    };
    let created = match text_for(created, Field::Created) {
        Ok(s) => s,
        Err(e) => {
            return Err(e);
        },
    };
    let modified = match text_for(modified, Field::Modified) {
        Ok(s) => s,
        Err(e) => {
            return Err(e);
        },
    };
    let last_printed = match text_for(last_printed, Field::LastPrinted) {
        Ok(s) => s,
        Err(e) => {
            return Err(e);
        },
    };
    Ok(Metadata { created, modified, last_printed })
}

proof fn lemma_kept_upto(es: Seq<Entry>, n: nat)
    requires
        n <= es.len(),
    ensures
        forall|j: int| 0 <= j < kept_upto(es, n).len() ==> !is_property_part(#[trigger] kept_upto(es, n)[j].0),
        forall|i: int| 0 <= i < n && !is_property_part(es[i].0) ==> #[trigger] kept_upto(es, n).contains(es[i]),
    decreases n,
{
    if n > 0 {
        let prev = kept_upto(es, (n - 1) as nat);
        lemma_kept_upto(es, (n - 1) as nat);
        if !is_property_part(es[n - 1].0) {
            let cur = prev.push(es[n - 1]);
            assert(kept_upto(es, n) == cur);
            assert forall|i: int| 0 <= i < n && !is_property_part(es[i].0) implies #[trigger] cur.contains(es[i]) by {
                if i == n - 1 {
                    assert(cur[prev.len() as int] == es[i]);
                } else {
                    assert(prev.contains(es[i]));
                    let j = choose|j: int| 0 <= j < prev.len() && prev[j] == es[i];
                    assert(cur[j] == es[i]);
                }
            }
        }
    }
}

proof fn lemma_index_skips(es: Seq<Entry>, name: Seq<u8>, i: int, n: int)
    requires
        0 <= i <= n <= es.len(),
        forall|j: int| i <= j < n ==> es[j].0 != name,
    ensures
        entry_index_from(es, name, i) == entry_index_from(es, name, n),
    decreases n - i,
{
    if i < n {
        lemma_index_skips(es, name, i + 1, n);
    }
}

/// Where the source of a save has no extended-properties part, the entry of
/// that name in the result is the one the save added, if any.
proof fn lemma_saved_app_entry(
    src: Seq<Entry>,
    out: Seq<Entry>,
    created: Seq<u8>,
    modified: Seq<u8>,
    last_printed: Seq<u8>,
)
    requires
        saved(src, out, created, modified, last_printed),
    ensures
        ({
            let n = kept(src).len() as int;
            entry_index_from(out, APP_PART.spec_bytes(), 0) == entry_index_from(out, APP_PART.spec_bytes(), n + 1)
        }),
{
    let k = kept(src);
    let n = k.len() as int;
    lemma_kept_upto(src, src.len());
    reveal_strlit("docProps/core.xml");
    reveal_strlit("docProps/app.xml");
    assert(CORE_PART.spec_bytes() != APP_PART.spec_bytes()) by {
        assert(CORE_PART@[9] != APP_PART@[9]);
        encode_utf8_decode_utf8(CORE_PART@);
        encode_utf8_decode_utf8(APP_PART@);
    }
    assert forall|j: int| 0 <= j < n + 1 implies out[j].0 != APP_PART.spec_bytes() by {
        if j < n {
            assert(out.subrange(0, n)[j] == k[j]);
            assert(!is_property_part(k[j].0));
        }
    }
    lemma_index_skips(out, APP_PART.spec_bytes(), 0, n + 1);
}

/// Saving copies every entry of the source other than the two property
/// parts, name and content unchanged, into the result.
pub proof fn lemma_save_keeps_other_entries(
    src: Seq<Entry>,
    out: Seq<Entry>,
    created: Seq<u8>,
    modified: Seq<u8>,
    last_printed: Seq<u8>,
    i: int,
)
    requires
        saved(src, out, created, modified, last_printed),
        0 <= i < src.len(),
        !is_property_part(src[i].0),
    ensures
        out.contains(src[i]),
{
    let k = kept(src);
    lemma_kept_upto(src, src.len());
    assert(k.contains(src[i]));
    let j = choose|j: int| 0 <= j < k.len() && k[j] == src[i];
    assert(out.subrange(0, k.len() as int)[j] == out[j]);
}

/// Saving a non-empty last-printed value into a package without extended
/// properties adds a minimal extended-properties part holding it.
pub proof fn lemma_save_adds_app_part(
    src: Seq<Entry>,
    out: Seq<Entry>,
    created: Seq<u8>,
    modified: Seq<u8>,
    last_printed: Seq<u8>,
)
    requires
        saved(src, out, created, modified, last_printed),
        entry_named(src, APP_PART.spec_bytes()) is None,
        last_printed.len() > 0,
    ensures
        entry_named(out, APP_PART.spec_bytes()) == Some(default_app_bytes(last_printed)),
{
    lemma_saved_app_entry(src, out, created, modified, last_printed);
}

/// Saving an empty last-printed value into a package without extended
/// properties adds no such part.
pub proof fn lemma_save_adds_no_empty_app_part(
    src: Seq<Entry>,
    out: Seq<Entry>,
    created: Seq<u8>,
    modified: Seq<u8>,
    last_printed: Seq<u8>,
)
    requires
        saved(src, out, created, modified, last_printed),
        entry_named(src, APP_PART.spec_bytes()) is None,
        last_printed.len() == 0,
    ensures
        entry_named(out, APP_PART.spec_bytes()) is None,
{
    lemma_saved_app_entry(src, out, created, modified, last_printed);
}

/// After a save, the property parts that a load of the result reads are the
/// ones that the save wrote after the copied entries.
pub proof fn lemma_saved_parts_are_read_back(
    src: Seq<Entry>,
    out: Seq<Entry>,
    created: Seq<u8>,
    modified: Seq<u8>,
    last_printed: Seq<u8>,
)
    requires
        saved(src, out, created, modified, last_printed),
    ensures
        ({
            let n = kept(src).len() as int;
            &&& entry_named(out, CORE_PART.spec_bytes()) == Some(out[n].1)
            &&& out.len() == n + 2 ==> entry_named(out, APP_PART.spec_bytes()) == Some(out[n + 1].1)
            &&& out.len() == n + 1 ==> entry_named(out, APP_PART.spec_bytes()) is None
        }),
{
    let k = kept(src);
    let n = k.len() as int;
    lemma_kept_upto(src, src.len());
    assert forall|j: int| 0 <= j < n implies out[j].0 != CORE_PART.spec_bytes() by {
        assert(out.subrange(0, n)[j] == k[j]);
        assert(!is_property_part(k[j].0));
    }
    lemma_index_skips(out, CORE_PART.spec_bytes(), 0, n);
    lemma_saved_app_entry(src, out, created, modified, last_printed);
}

} // verus!
