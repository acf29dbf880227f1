use std::io::{Cursor, Read, Write};

use docx_meta::package::{load, save};
use docx_meta::props::{default_app_xml, validate, ArchiveError, Field, MetaError, APP_PART, CORE_PART};
use zip::write::SimpleFileOptions;
use zip::{ZipArchive, ZipWriter};

const CORE_XML: &str = "<?xml version=\"1.0\" encoding=\"UTF-8\" standalone=\"yes\"?>\n<cp:coreProperties xmlns:cp=\"http://schemas.openxmlformats.org/package/2006/metadata/core-properties\" xmlns:dcterms=\"http://purl.org/dc/terms/\" xmlns:xsi=\"http://www.w3.org/2001/XMLSchema-instance\">\n  <dc:title xmlns:dc=\"http://purl.org/dc/elements/1.1/\">Report</dc:title>\n  <dcterms:created xsi:type=\"dcterms:W3CDTF\">2020-05-01T08:00:00Z</dcterms:created>\n  <dcterms:modified xsi:type=\"dcterms:W3CDTF\">2020-06-01T09:30:00Z</dcterms:modified>\n</cp:coreProperties>";

const APP_XML: &str = "<?xml version=\"1.0\" encoding=\"UTF-8\" standalone=\"yes\"?>\n<Properties xmlns=\"http://schemas.openxmlformats.org/officeDocument/2006/extended-properties\">\n  <Application>Microsoft Office Word</Application>\n  <LastPrinted>2020-07-01T10:00:00Z</LastPrinted>\n</Properties>";

const APP_XML_NO_PRINT: &str = "<?xml version=\"1.0\" encoding=\"UTF-8\" standalone=\"yes\"?>\n<Properties xmlns=\"http://schemas.openxmlformats.org/officeDocument/2006/extended-properties\">\n  <Pages>3</Pages>\n</Properties>";

const DOCUMENT_XML: &str = "<w:document xmlns:w=\"urn:w\"><w:body><w:p>Hello</w:p></w:body></w:document>";

fn package(entries: &[(&str, &[u8])]) -> Vec<u8> {
    let mut w = ZipWriter::new(Cursor::new(Vec::new()));
    for (name, data) in entries {
        w.start_file(*name, SimpleFileOptions::default()).unwrap();
        w.write_all(data).unwrap();
    }
    w.finish().unwrap().into_inner()
}

fn full_package() -> Vec<u8> {
    package(&[
        ("[Content_Types].xml", b"<Types/>"),
        ("word/document.xml", DOCUMENT_XML.as_bytes()),
        (CORE_PART, CORE_XML.as_bytes()),
        (APP_PART, APP_XML.as_bytes()),
    ])
}

fn entry(container: &[u8], name: &str) -> Option<Vec<u8>> {
    let mut a = ZipArchive::new(Cursor::new(container.to_vec())).unwrap();
    let mut f = match a.by_name(name) {
        Ok(f) => f,
        Err(_) => return None,
    };
    let mut data = Vec::new();
    f.read_to_end(&mut data).unwrap();
    Some(data)
}

fn names(container: &[u8]) -> Vec<String> {
    let a = ZipArchive::new(Cursor::new(container.to_vec())).unwrap();
    a.file_names().map(|n| n.to_string()).collect()
}

#[test]
fn load_reads_three_values() {
    let m = load(full_package()).unwrap();
    assert_eq!(m.created, "2020-05-01T08:00:00Z");
    assert_eq!(m.modified, "2020-06-01T09:30:00Z");
    assert_eq!(m.last_printed, "2020-07-01T10:00:00Z");
}

#[test]
fn save_then_load_round_trip() {
    let out = save(full_package(), "2023-01-01T12:00:00Z", "2023-01-02T13:00:00Z", "2023-01-03T14:00:00Z").unwrap();
    let m = load(out).unwrap();
    assert_eq!(m.created, "2023-01-01T12:00:00Z");
    assert_eq!(m.modified, "2023-01-02T13:00:00Z");
    assert_eq!(m.last_printed, "2023-01-03T14:00:00Z");
}

#[test]
fn save_keeps_other_entries_byte_for_byte() {
    let src = full_package();
    let out = save(src.clone(), "2023-01-01T12:00:00Z", "2023-01-02T13:00:00Z", "").unwrap();
    assert_eq!(entry(&out, "word/document.xml").unwrap(), DOCUMENT_XML.as_bytes());
    assert_eq!(entry(&out, "[Content_Types].xml").unwrap(), b"<Types/>");
    let mut out_names = names(&out);
    out_names.sort();
    let mut src_names = names(&src);
    src_names.sort();
    assert_eq!(out_names, src_names);
}

#[test]
fn save_changes_only_the_date_text() {
    let out = save(full_package(), "2023-01-01T12:00:00Z", "2023-01-02T13:00:00Z", "2023-01-03T14:00:00Z").unwrap();
    let core = String::from_utf8(entry(&out, CORE_PART).unwrap()).unwrap();
    let expected = CORE_XML
        .replace("2020-05-01T08:00:00Z", "2023-01-01T12:00:00Z")
        .replace("2020-06-01T09:30:00Z", "2023-01-02T13:00:00Z");
    assert_eq!(core, expected);
    let app = String::from_utf8(entry(&out, APP_PART).unwrap()).unwrap();
    assert_eq!(app, APP_XML.replace("2020-07-01T10:00:00Z", "2023-01-03T14:00:00Z"));
}

#[test]
fn rewriting_with_current_values_changes_nothing() {
    let out = save(full_package(), "2020-05-01T08:00:00Z", "2020-06-01T09:30:00Z", "2020-07-01T10:00:00Z").unwrap();
    assert_eq!(entry(&out, CORE_PART).unwrap(), CORE_XML.as_bytes());
    assert_eq!(entry(&out, APP_PART).unwrap(), APP_XML.as_bytes());
    let m = load(out).unwrap();
    assert_eq!(m.created, "2020-05-01T08:00:00Z");
    assert_eq!(m.modified, "2020-06-01T09:30:00Z");
}

#[test]
fn save_adds_app_part_when_missing() {
    let src = package(&[("word/document.xml", DOCUMENT_XML.as_bytes()), (CORE_PART, CORE_XML.as_bytes())]);
    let out = save(src, "2023-01-01T12:00:00Z", "2023-01-02T13:00:00Z", "2023-03-04T05:06:07Z").unwrap();
    let app = entry(&out, APP_PART).unwrap();
    assert_eq!(app, default_app_xml("2023-03-04T05:06:07Z"));
    assert_eq!(load(out).unwrap().last_printed, "2023-03-04T05:06:07Z");
}

#[test]
fn save_with_empty_last_printed_adds_no_app_part() {
    let src = package(&[("word/document.xml", DOCUMENT_XML.as_bytes()), (CORE_PART, CORE_XML.as_bytes())]);
    let out = save(src, "2023-01-01T12:00:00Z", "2023-01-02T13:00:00Z", "").unwrap();
    assert!(entry(&out, APP_PART).is_none());
    assert_eq!(load(out).unwrap().last_printed, "");
}

#[test]
fn save_inserts_last_printed_into_app_part_lacking_it() {
    let src = package(&[(CORE_PART, CORE_XML.as_bytes()), (APP_PART, APP_XML_NO_PRINT.as_bytes())]);
    let out = save(src, "2023-01-01T12:00:00Z", "2023-01-02T13:00:00Z", "2023-02-02T02:02:02Z").unwrap();
    let app = String::from_utf8(entry(&out, APP_PART).unwrap()).unwrap();
    assert_eq!(
        app,
        APP_XML_NO_PRINT.replace("</Properties>", "<LastPrinted>2023-02-02T02:02:02Z</LastPrinted></Properties>")
    );
    assert_eq!(load(out).unwrap().last_printed, "2023-02-02T02:02:02Z");
}

#[test]
fn save_leaves_app_part_lacking_last_printed_alone_for_empty_value() {
    let src = package(&[(CORE_PART, CORE_XML.as_bytes()), (APP_PART, APP_XML_NO_PRINT.as_bytes())]);
    let out = save(src, "2023-01-01T12:00:00Z", "2023-01-02T13:00:00Z", "").unwrap();
    assert_eq!(entry(&out, APP_PART).unwrap(), APP_XML_NO_PRINT.as_bytes());
}

#[test]
fn save_opens_empty_element_tags() {
    let core = "<cp:coreProperties xmlns:cp=\"urn:cp\" xmlns:dcterms=\"urn:d\"><dcterms:created a=\"1\"/><dcterms:modified></dcterms:modified></cp:coreProperties>";
    let src = package(&[(CORE_PART, core.as_bytes())]);
    let out = save(src, "2023-01-01T12:00:00Z", "2023-01-02T13:00:00Z", "").unwrap();
    let new_core = String::from_utf8(entry(&out, CORE_PART).unwrap()).unwrap();
    assert_eq!(
        new_core,
        "<cp:coreProperties xmlns:cp=\"urn:cp\" xmlns:dcterms=\"urn:d\"><dcterms:created a=\"1\">2023-01-01T12:00:00Z</dcterms:created><dcterms:modified>2023-01-02T13:00:00Z</dcterms:modified></cp:coreProperties>"
    );
}

#[test]
fn save_rejects_malformed_date_before_reading() {
    let src = full_package();
    let before = src.clone();
    let r = save(src.clone(), "2023-13-40T99:99:99Z", "2023-01-02T13:00:00Z", "");
    assert_eq!(r, Err(MetaError::Invalid(Field::Created)));
    assert_eq!(src, before);
    // even a container that is not an archive gives the validation error
    let r = save(b"not a zip".to_vec(), "2023-13-40T99:99:99Z", "x", "");
    assert_eq!(r, Err(MetaError::Invalid(Field::Created)));
}

#[test]
fn validate_checks_each_field_in_order() {
    assert_eq!(validate("2023-01-01T12:00:00Z", "2023-01-01T12:00:00+02:00", ""), Ok(()));
    assert_eq!(validate("", "2023-01-01T12:00:00Z", ""), Err(MetaError::Invalid(Field::Created)));
    assert_eq!(validate("2023-01-01T12:00:00Z", "yesterday", ""), Err(MetaError::Invalid(Field::Modified)));
    assert_eq!(
        validate("2023-01-01T12:00:00Z", "2023-01-01T12:00:00Z", "2023-01-01"),
        Err(MetaError::Invalid(Field::LastPrinted))
    );
}

#[test]
fn missing_core_part_is_an_archive_error() {
    let src = package(&[("word/document.xml", DOCUMENT_XML.as_bytes()), (APP_PART, APP_XML.as_bytes())]);
    assert_eq!(load(src.clone()).err(), Some(MetaError::Archive(ArchiveError::MissingEntry)));
    assert_eq!(
        save(src, "2023-01-01T12:00:00Z", "2023-01-02T13:00:00Z", "").err(),
        Some(MetaError::Archive(ArchiveError::MissingEntry))
    );
}

#[test]
fn corrupt_container_is_an_archive_error() {
    assert_eq!(load(b"PK not really".to_vec()).err(), Some(MetaError::Archive(ArchiveError::Corrupt)));
    assert_eq!(
        save(Vec::new(), "2023-01-01T12:00:00Z", "2023-01-02T13:00:00Z", "").err(),
        Some(MetaError::Archive(ArchiveError::Corrupt))
    );
}

#[test]
fn missing_modified_element_is_reported() {
    let core = "<cp:coreProperties xmlns:cp=\"urn:cp\" xmlns:dcterms=\"urn:d\"><dcterms:created>2020-01-01T00:00:00Z</dcterms:created></cp:coreProperties>";
    let src = package(&[(CORE_PART, core.as_bytes())]);
    assert_eq!(load(src).err(), Some(MetaError::MissingField(Field::Modified)));
}

#[test]
fn malformed_core_xml_is_reported() {
    let core = "<cp:coreProperties><dcterms:created>2020</dcterms:modified></cp:coreProperties>";
    let src = package(&[(CORE_PART, core.as_bytes())]);
    assert!(matches!(load(src.clone()).err(), Some(MetaError::Xml(_))));
    assert!(matches!(save(src, "2023-01-01T12:00:00Z", "2023-01-02T13:00:00Z", "").err(), Some(MetaError::Xml(_))));
}

#[test]
fn default_app_part_text() {
    let b = default_app_xml("2023-01-01T14:00:00Z");
    assert_eq!(
        String::from_utf8(b).unwrap(),
        "<?xml version=\"1.0\" encoding=\"UTF-8\" standalone=\"yes\"?>\n<Properties xmlns=\"http://schemas.openxmlformats.org/officeDocument/2006/extended-properties\">\n  <Application>Microsoft Office Word</Application>\n  <LastPrinted>2023-01-01T14:00:00Z</LastPrinted>\n</Properties>"
    );
}

#[test]
fn default_app_part_escapes_markup() {
    let b = String::from_utf8(default_app_xml("a<b & \"c\"")).unwrap();
    assert!(b.contains("<LastPrinted>a&lt;b &amp; &quot;c&quot;</LastPrinted>"));
}

#[test]
fn save_keeps_compression_method_of_copied_entries() {
    let mut w = ZipWriter::new(Cursor::new(Vec::new()));
    let stored = SimpleFileOptions::default().compression_method(zip::CompressionMethod::Stored);
    w.start_file("media/image.bin", stored).unwrap();
    w.write_all(&[1, 2, 3, 4, 5]).unwrap();
    w.start_file(CORE_PART, SimpleFileOptions::default()).unwrap();
    w.write_all(CORE_XML.as_bytes()).unwrap();
    let src = w.finish().unwrap().into_inner();
    let out = save(src, "2023-01-01T12:00:00Z", "2023-01-02T13:00:00Z", "").unwrap();
    let mut a = ZipArchive::new(Cursor::new(out)).unwrap();
    let f = a.by_name("media/image.bin").unwrap();
    assert_eq!(f.compression(), zip::CompressionMethod::Stored);
}

#[test]
fn load_gives_empty_last_printed_when_element_absent() {
    let src = package(&[(CORE_PART, CORE_XML.as_bytes()), (APP_PART, APP_XML_NO_PRINT.as_bytes())]);
    let m = load(src).unwrap();
    assert_eq!(m.created, "2020-05-01T08:00:00Z");
    assert_eq!(m.last_printed, "");
}

#[test]
fn empty_created_element_is_missing() {
    let core = "<cp:coreProperties xmlns:cp=\"urn:cp\" xmlns:dcterms=\"urn:d\"><dcterms:created></dcterms:created><dcterms:modified>2020-01-01T00:00:00Z</dcterms:modified></cp:coreProperties>";
    let src = package(&[(CORE_PART, core.as_bytes())]);
    assert_eq!(load(src).err(), Some(MetaError::MissingField(Field::Created)));
}
