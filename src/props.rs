//! The three date fields, their checks, and the rewriting of the two
//! property parts that hold them.
use crate::bytes::push_all;
use crate::rewrite::{
    holds_target_texts, insertion_view, lemma_restating_texts_changes_nothing, rewrite, rewritten, targets_view, Insertion,
    Target,
};
use crate::xml::{escape_text, escaped, lemma_xml_tokens_cover, tokenize, xml_tokens};
use vstd::prelude::*;
use vstd::string::StringSliceAdditionalSpecFns;

verus! {

/// The entry that holds the core properties.
pub const CORE_PART: &'static str = "docProps/core.xml";

/// The entry that holds the extended (application) properties.
pub const APP_PART: &'static str = "docProps/app.xml";

pub const CREATED_TAG: &'static str = "dcterms:created";

pub const MODIFIED_TAG: &'static str = "dcterms:modified";

pub const LAST_PRINTED_TAG: &'static str = "LastPrinted";

/// The root element of the extended properties.
pub const APP_ROOT_TAG: &'static str = "Properties";

/// What precedes the last-printed value in a new extended-properties part.
pub const APP_XML_HEAD: &'static str = "<?xml version=\"1.0\" encoding=\"UTF-8\" standalone=\"yes\"?>\n<Properties xmlns=\"http://schemas.openxmlformats.org/officeDocument/2006/extended-properties\">\n  <Application>Microsoft Office Word</Application>\n  <LastPrinted>";

/// What follows the last-printed value in a new extended-properties part.
pub const APP_XML_TAIL: &'static str = "</LastPrinted>\n</Properties>";

/// One of the three date fields.
#[derive(Clone, Copy, Debug, PartialEq, Eq, Structural)]
pub enum Field {
    Created,
    Modified,
    LastPrinted,
}

/// What went wrong with the container itself.
#[derive(Clone, Copy, Debug, PartialEq, Eq, Structural)]
pub enum ArchiveError {
    /// The bytes are not a readable ZIP archive, or an entry could not be read.
    Corrupt,
    /// The archive has no core-properties entry.
    MissingEntry,
}

#[derive(Clone, Copy, Debug, PartialEq, Eq, Structural)]
pub enum MetaError {
    Archive(ArchiveError),
    /// A property part is not well-formed XML; the byte offset where reading stopped.
    Xml(usize),
    /// A value is not an RFC 3339 date-time.
    Invalid(Field),
    /// The core properties lack the element for this field, or it is empty.
    MissingField(Field),
    /// The text of this field is not UTF-8.
    Encoding(Field),
    /// The new archive could not be written.
    Commit,
}

/// The three values, as text.
#[derive(Debug)]
pub struct Metadata {
    pub created: String,
    pub modified: String,
    pub last_printed: String,
}

/// Whether chrono reads the text as an RFC 3339 date-time.
pub uninterp spec fn rfc3339_valid(s: Seq<char>) -> bool;

/// Relies on chrono::DateTime::parse_from_rfc3339: whether the text parses.
/// An empty text holds no date.
#[verifier::external_body]
fn parses_rfc3339(s: &str) -> (r: bool)
    ensures
        r == rfc3339_valid(s@),
        s@.len() == 0 ==> !r,
{
    chrono::DateTime::parse_from_rfc3339(s).is_ok()
}

/// The first of the three values that is not acceptable: created and modified
/// must be date-times; last printed may also be empty.
pub open spec fn first_invalid(created: Seq<char>, modified: Seq<char>, last_printed: Seq<char>) -> Option<Field> {
    if !rfc3339_valid(created) {
        Some(Field::Created)
    } else if !rfc3339_valid(modified) {
        Some(Field::Modified)
    } else if last_printed.len() > 0 && !rfc3339_valid(last_printed) {
        Some(Field::LastPrinted)
    } else {
        None
    }
}

/// Checks the three values before anything is read or written.
pub fn validate(created: &str, modified: &str, last_printed: &str) -> (r: Result<(), MetaError>)
    ensures
        first_invalid(created@, modified@, last_printed@) is None ==> r is Ok,
        first_invalid(created@, modified@, last_printed@) matches Some(f) ==> r == Err::<(), MetaError>(MetaError::Invalid(f)),
{
    if !parses_rfc3339(created) {
        return Err(MetaError::Invalid(Field::Created));
    }
    if !parses_rfc3339(modified) {
        return Err(MetaError::Invalid(Field::Modified));
    }
    if !last_printed.is_empty() && !parses_rfc3339(last_printed) {
        return Err(MetaError::Invalid(Field::LastPrinted));
    }
    Ok(())
}

/// A new extended-properties part holding the given last-printed value.
pub open spec fn default_app_bytes(last_printed: Seq<u8>) -> Seq<u8> {
    APP_XML_HEAD.spec_bytes() + last_printed + APP_XML_TAIL.spec_bytes()
}

/// Writes a minimal extended-properties part: the namespace, the application
/// name and the last-printed value, escaped.
pub fn default_app_xml(last_printed: &str) -> (r: Vec<u8>)
    ensures
        r@ == default_app_bytes(escaped(last_printed.spec_bytes())),
{
    let mut out: Vec<u8> = Vec::new();
    push_all(&mut out, APP_XML_HEAD.as_bytes());
    let text = escape_text(last_printed);
    push_all(&mut out, text.as_slice());
    push_all(&mut out, APP_XML_TAIL.as_bytes());
    out
}

/// The bytes of a text.
pub(crate) fn owned_bytes(s: &str) -> (r: Vec<u8>)
    ensures
        r@ == s.spec_bytes(),
{
    let mut out: Vec<u8> = Vec::new();
    push_all(&mut out, s.as_bytes());
    out
}

/// The replacements made in the core properties.
pub open spec fn core_targets(created: Seq<u8>, modified: Seq<u8>) -> Seq<(Seq<u8>, Seq<u8>)> {
    seq![(CREATED_TAG.spec_bytes(), created), (MODIFIED_TAG.spec_bytes(), modified)]
}

/// The replacement made in the extended properties.
pub open spec fn app_targets(last_printed: Seq<u8>) -> Seq<(Seq<u8>, Seq<u8>)> {
    seq![(LAST_PRINTED_TAG.spec_bytes(), last_printed)]
}

/// The last-printed element added to extended properties that lack one.
pub open spec fn app_insertion(last_printed: Seq<u8>) -> Option<(Seq<u8>, Seq<u8>, Seq<u8>)> {
    Some((APP_ROOT_TAG.spec_bytes(), LAST_PRINTED_TAG.spec_bytes(), last_printed))
}

/// The core part with the created and modified values replaced, under the
/// tokens that quick-xml's events give; none where it cannot read the part.
pub open spec fn patched_core(core: Seq<u8>, created: Seq<u8>, modified: Seq<u8>) -> Option<Seq<u8>> {
    match xml_tokens(core) {
        Some(toks) => Some(rewritten(core, toks, core_targets(created, modified), None)),
        None => None,
    }
}

/// The new extended part: the existing one with the last-printed value
/// replaced or added; where there is none, a minimal one for a non-empty
/// value, and no part for an empty one. None where quick-xml cannot read the
/// existing part.
pub open spec fn patched_app(app: Option<Seq<u8>>, last_printed: Seq<u8>) -> Option<Option<Seq<u8>>> {
    match app {
        None => Some(
            if last_printed.len() == 0 {
                None
            } else {
                Some(default_app_bytes(last_printed))
            },
        ),
        Some(a) => match xml_tokens(a) {
            Some(toks) => Some(Some(rewritten(a, toks, app_targets(last_printed), app_insertion(last_printed)))),
            None => None,
        },
    }
}

pub open spec fn slice_opt_view(o: Option<&[u8]>) -> Option<Seq<u8>> {
    match o {
        Some(b) => Some(b@),
        None => None,
    }
}

pub open spec fn vec_opt_view(o: Option<Vec<u8>>) -> Option<Seq<u8>> {
    match o {
        Some(b) => Some(b@),
        None => None,
    }
}

/// Replaces the created and modified values, escaped, in a core-properties part.
pub fn patch_core(core: &[u8], created: &str, modified: &str) -> (r: Result<Vec<u8>, MetaError>)
    ensures
        r is Ok <==> xml_tokens(core@) is Some,
        r is Ok ==> patched_core(core@, escaped(created.spec_bytes()), escaped(modified.spec_bytes())) == Some(r->Ok_0@),
        r is Err ==> r->Err_0 is Xml,
{
    let toks = match tokenize(core) {
        Ok(t) => t,
        Err(e) => {
            return Err(MetaError::Xml(e.position));
        },
    };
    let mut targets: Vec<Target> = Vec::new();
    targets.push(Target { name: owned_bytes(CREATED_TAG), text: escape_text(created) });
    targets.push(Target { name: owned_bytes(MODIFIED_TAG), text: escape_text(modified) });
    let ins: Option<Insertion> = None;
    let ghost want = core_targets(escaped(created.spec_bytes()), escaped(modified.spec_bytes()));
    assert(targets_view(targets@) =~= want);
    let out = rewrite(core, &toks, &targets, &ins);
    Ok(out)
}

/// The new extended-properties part: the existing one with its last-printed
/// value replaced (or added where it lacks one and the value is not empty);
/// where there is none, a minimal one holding a non-empty value, and no part
/// for an empty value.
pub fn patch_app(app: Option<&[u8]>, last_printed: &str) -> (r: Result<Option<Vec<u8>>, MetaError>)
    ensures
        r is Ok <==> patched_app(slice_opt_view(app), escaped(last_printed.spec_bytes())) is Some,
        r is Ok ==> patched_app(slice_opt_view(app), escaped(last_printed.spec_bytes())) == Some(vec_opt_view(r->Ok_0)),
        r is Err ==> r->Err_0 is Xml,
{
    match app {
        None => {
            if last_printed.is_empty() {
                Ok(None)
            } else {
                Ok(Some(default_app_xml(last_printed)))
            }
        },
        Some(bytes) => {
            let toks = match tokenize(bytes) {
                Ok(t) => t,
                Err(e) => {
                    return Err(MetaError::Xml(e.position));
                },
            };
            let mut targets: Vec<Target> = Vec::new();
            let text = escape_text(last_printed);
            targets.push(Target { name: owned_bytes(LAST_PRINTED_TAG), text: escape_text(last_printed) });
            let ins = Some(Insertion { root: owned_bytes(APP_ROOT_TAG), name: owned_bytes(LAST_PRINTED_TAG), text });
            let ghost v = escaped(last_printed.spec_bytes());
            assert(targets_view(targets@) =~= app_targets(v));
            assert(insertion_view(ins) == app_insertion(v));
            let out = rewrite(bytes, &toks, &targets, &ins);
            Ok(Some(out))
        },
    }
}

/// Patching a core part with the texts that its created and modified
/// elements already hold gives the part back byte for byte.
pub proof fn lemma_patch_core_with_held_values(core: Seq<u8>, created: Seq<u8>, modified: Seq<u8>)
    requires
        xml_tokens(core) is Some,
        holds_target_texts(core, xml_tokens(core)->Some_0, core_targets(created, modified)),
    ensures
        patched_core(core, created, modified) == Some(core),
{
    lemma_xml_tokens_cover(core);
    lemma_restating_texts_changes_nothing(core, xml_tokens(core)->Some_0, core_targets(created, modified));
}

} // verus!
