//! XML tokens with their byte spans, read through quick-xml.
use quick_xml::reader::Reader;
use quick_xml::events::Event;
use vstd::prelude::*;
use vstd::string::StringSliceAdditionalSpecFns;

verus! {

#[verifier::external_type_specification]
#[verifier::external_body]
#[verifier::reject_recursive_types(R)]
pub struct ExXmlReader<R>(Reader<R>);

#[verifier::external_type_specification]
#[verifier::external_body]
pub struct ExXmlError(quick_xml::Error);

/// What a token is, as far as the rewriter needs to know.
#[derive(Debug)]
pub enum TokenKind {
    /// `<name ...>`
    Start(Vec<u8>),
    /// `</name>`
    End(Vec<u8>),
    /// `<name .../>`
    Empty(Vec<u8>),
    /// Character data between tags.
    Text,
    /// Declarations, comments, processing instructions, CDATA, DOCTYPE.
    Other,
}

/// A token together with the half-open byte range `[start, end)` it spans.
#[derive(Debug)]
pub struct Token {
    pub kind: TokenKind,
    pub start: usize,
    pub end: usize,
}

/// The token stream could not be produced: the byte offset where parsing stopped.
#[derive(Debug, PartialEq, Eq, Structural)]
pub struct XmlError {
    pub position: usize,
}

/// A token kind, with the tag name as a byte sequence.
pub enum KindView {
    Start(Seq<u8>),
    End(Seq<u8>),
    Empty(Seq<u8>),
    Text,
    Other,
}

/// A token as the specifications see it.
pub struct TokenView {
    pub kind: KindView,
    pub start: int,
    pub end: int,
}

/// An event of quick-xml's reader as the specifications see it.
pub enum EventView {
    Token(KindView),
    Eof,
}

impl View for TokenKind {
    type V = KindView;

    open spec fn view(&self) -> KindView {
        match self {
            TokenKind::Start(n) => KindView::Start(n@),
            TokenKind::End(n) => KindView::End(n@),
            TokenKind::Empty(n) => KindView::Empty(n@),
            TokenKind::Text => KindView::Text,
            TokenKind::Other => KindView::Other,
        }
    }
}

impl View for Token {
    type V = TokenView;

    open spec fn view(&self) -> TokenView {
        TokenView { kind: self.kind@, start: self.start as int, end: self.end as int }
    }
}

/// The views of a sequence of tokens.
pub open spec fn token_views(toks: Seq<Token>) -> Seq<TokenView> {
    toks.map_values(|t: Token| t@)
}

/// Tokens lie end to end, from offset `from` to offset `to`.
pub open spec fn tokens_cover_from(toks: Seq<TokenView>, from: int, to: int) -> bool {
    &&& forall|i: int| 0 <= i < toks.len() ==> from <= #[trigger] toks[i].start
    &&& forall|i: int| 0 <= i < toks.len() ==> #[trigger] toks[i].start <= toks[i].end
    &&& forall|i: int| 0 <= i < toks.len() ==> #[trigger] toks[i].end <= to
    &&& forall|i: int| 0 < i < toks.len() ==> #[trigger] toks[i].start == toks[i - 1].end
    &&& toks.len() == 0 ==> from == to
    &&& toks.len() > 0 ==> toks[0].start == from && toks.last().end == to
}

/// Tokens lie end to end, from offset zero to the end of a document of `len` bytes.
pub open spec fn tokens_cover(toks: Seq<TokenView>, len: nat) -> bool {
    tokens_cover_from(toks, 0, len as int)
}

/// The bytes a token spans.
pub open spec fn span(input: Seq<u8>, t: TokenView) -> Seq<u8> {
    input.subrange(t.start, t.end)
}

/// The spans of the first `n` tokens, joined.
pub open spec fn joined_spans(input: Seq<u8>, toks: Seq<TokenView>, n: nat) -> Seq<u8>
    decreases n,
{
    if n == 0 || n > toks.len() {
        Seq::empty()
    } else {
        joined_spans(input, toks, (n - 1) as nat) + span(input, toks[n - 1])
    }
}

/// Joining the spans of covering tokens gives back the prefix they cover.
pub proof fn lemma_joined_prefix(input: Seq<u8>, toks: Seq<TokenView>, n: nat)
    requires
        tokens_cover(toks, input.len()),
        0 < n <= toks.len(),
    ensures
        joined_spans(input, toks, n) =~= input.subrange(0, toks[n - 1].end),
    decreases n,
{
    let t = toks[n - 1];
    assert(0 <= t.start <= t.end && t.end <= input.len());
    if n > 1 {
        lemma_joined_prefix(input, toks, (n - 1) as nat);
        assert(t.start == toks[n - 2].end);
        assert(input.subrange(0, t.start) + input.subrange(t.start, t.end) =~= input.subrange(0, t.end));
    } else {
        assert(joined_spans(input, toks, 0) =~= Seq::<u8>::empty());
    }
}

/// Joining the spans of all the tokens of a document gives the document back.
pub proof fn lemma_tokens_rebuild(input: Seq<u8>, toks: Seq<TokenView>)
    requires
        tokens_cover(toks, input.len()),
    ensures
        joined_spans(input, toks, toks.len()) == input,
{
    if toks.len() > 0 {
        lemma_joined_prefix(input, toks, toks.len());
        assert(input.subrange(0, input.len() as int) =~= input);
    }
}

/// The document that a reader reads.
pub uninterp spec fn reader_input(r: Reader<&[u8]>) -> Seq<u8>;

/// How many events a reader has handed out.
pub uninterp spec fn reader_events_read(r: Reader<&[u8]>) -> nat;

/// The event with index `n` that quick-xml's reader finds in a document,
/// none where it reports an error instead.
pub uninterp spec fn xml_event(b: Seq<u8>, n: nat) -> Option<EventView>;

/// The position that quick-xml's reader reports after `n` events of a document.
pub uninterp spec fn xml_position(b: Seq<u8>, n: nat) -> usize;

/// One event read by quick-xml, the tag name kept where there is one.
pub enum RawEvent {
    Token(TokenKind),
    Eof,
}

impl View for RawEvent {
    type V = EventView;

    open spec fn view(&self) -> EventView {
        match self {
            RawEvent::Token(k) => EventView::Token(k@),
            RawEvent::Eof => EventView::Eof,
        }
    }
}

/// Relies on quick_xml::reader::Reader::from_reader: a reader over the bytes,
/// with no event read yet.
#[verifier::external_body]
fn xml_reader<'a>(input: &'a [u8]) -> (r: Reader<&'a [u8]>)
    ensures
        reader_input(r) == input@,
        reader_events_read(r) == 0,
{
    Reader::from_reader(input)
}

/// Relies on quick_xml::reader::Reader::read_event: the next event of the
/// document, which depends on the document and on how many came before.
#[verifier::external_body]
fn read_event<'a>(reader: &mut Reader<&'a [u8]>) -> (r: Result<RawEvent, quick_xml::Error>)
    ensures
        reader_input(*final(reader)) == reader_input(*old(reader)),
        reader_events_read(*final(reader)) == reader_events_read(*old(reader)) + 1,
        r is Ok <==> xml_event(reader_input(*old(reader)), reader_events_read(*old(reader))) is Some,
        r is Ok ==> xml_event(reader_input(*old(reader)), reader_events_read(*old(reader))) == Some(r->Ok_0@),
{
    match reader.read_event() {
        Ok(Event::Start(e)) => Ok(RawEvent::Token(TokenKind::Start(e.name().as_ref().to_vec()))),
        Ok(Event::End(e)) => Ok(RawEvent::Token(TokenKind::End(e.name().as_ref().to_vec()))),
        Ok(Event::Empty(e)) => Ok(RawEvent::Token(TokenKind::Empty(e.name().as_ref().to_vec()))),
        Ok(Event::Text(_)) => Ok(RawEvent::Token(TokenKind::Text)),
        Ok(Event::Eof) => Ok(RawEvent::Eof),
        Ok(_) => Ok(RawEvent::Token(TokenKind::Other)),
        Err(e) => Err(e),
    }
}

/// Relies on quick_xml::reader::Reader::buffer_position: the offset that the
/// reader reports after the events read so far.
#[verifier::external_body]
fn buffer_position<'a>(reader: &Reader<&'a [u8]>) -> (r: usize)
    ensures
        r == xml_position(reader_input(*reader), reader_events_read(*reader)),
{
    reader.buffer_position()
}

/// Where a token read at reported position `pos` ends. After text the reader
/// counts the `<` that ended it as read and reports the offset before it;
/// text that runs to the end of the input ends there instead.
pub open spec fn token_end(b: Seq<u8>, k: KindView, pos: int) -> int {
    match k {
        KindView::Text => if 0 <= pos < b.len() && b[pos] == 60u8 {
            pos
        } else {
            b.len() as int
        },
        _ => pos,
    }
}

/// The tokens from event `n` on, the previous one having ended at `prev`;
/// none where the reader reports an error or does not move forward. Bytes
/// that follow the last event form one `Other` token.
pub open spec fn scan_tokens(b: Seq<u8>, n: nat, prev: int) -> Option<Seq<TokenView>>
    decreases b.len() - prev,
{
    if prev < 0 || prev > b.len() {
        None
    } else {
        match xml_event(b, n) {
            None => None,
            Some(EventView::Eof) => Some(
                if prev < b.len() {
                    seq![TokenView { kind: KindView::Other, start: prev, end: b.len() as int }]
                } else {
                    Seq::empty()
                },
            ),
            Some(EventView::Token(k)) => {
                let end = token_end(b, k, xml_position(b, n + 1) as int);
                if end <= prev || end > b.len() {
                    None
                } else {
                    match scan_tokens(b, n + 1, end) {
                        Some(rest) => Some(seq![TokenView { kind: k, start: prev, end }] + rest),
                        None => None,
                    }
                }
            },
        }
    }
}

/// The tokens of a document, as quick-xml's events determine them.
pub open spec fn xml_tokens(b: Seq<u8>) -> Option<Seq<TokenView>> {
    scan_tokens(b, 0, 0)
}

/// Tokens already read, followed by those still to come.
pub open spec fn prepend(done: Seq<TokenView>, rest: Option<Seq<TokenView>>) -> Option<Seq<TokenView>> {
    match rest {
        Some(r) => Some(done + r),
        None => None,
    }
}

proof fn lemma_cover_push(toks: Seq<TokenView>, from: int, mid: int, t: TokenView)
    requires
        tokens_cover_from(toks, from, mid),
        t.start == mid,
        mid <= t.end,
    ensures
        tokens_cover_from(toks.push(t), from, t.end),
{
    let s = toks.push(t);
    assert forall|i: int| 0 < i < s.len() implies #[trigger] s[i].start == s[i - 1].end by {
        if i == toks.len() {
            assert(s[i - 1] == toks.last());
        }
    }
}

/// Tokens scanned from a position cover the rest of the document.
pub proof fn lemma_scan_covers(b: Seq<u8>, n: nat, prev: int)
    requires
        scan_tokens(b, n, prev) is Some,
    ensures
        tokens_cover_from(scan_tokens(b, n, prev)->Some_0, prev, b.len() as int),
    decreases b.len() - prev,
{
    let r = scan_tokens(b, n, prev)->Some_0;
    if let Some(EventView::Token(k)) = xml_event(b, n) {
        let end = token_end(b, k, xml_position(b, n + 1) as int);
        lemma_scan_covers(b, n + 1, end);
        let rest = scan_tokens(b, n + 1, end)->Some_0;
        let t = TokenView { kind: k, start: prev, end };
        assert(r == seq![t] + rest);
        assert forall|i: int| 0 < i < r.len() implies #[trigger] r[i].start == r[i - 1].end by {
            if i > 1 {
                assert(r[i] == rest[i - 1] && r[i - 1] == rest[i - 2]);
            }
        }
        assert forall|i: int| 0 <= i < r.len() implies prev <= #[trigger] r[i].start by {
            if i > 0 {
                assert(r[i] == rest[i - 1]);
            }
        }
        assert forall|i: int| 0 <= i < r.len() implies #[trigger] r[i].start <= r[i].end by {
            if i > 0 {
                assert(r[i] == rest[i - 1]);
            }
        }
        assert forall|i: int| 0 <= i < r.len() implies #[trigger] r[i].end <= b.len() by {
            if i > 0 {
                assert(r[i] == rest[i - 1]);
            }
        }
        if rest.len() > 0 {
            assert(r.last() == rest.last());
        }
    }
}

/// The tokens of a document cover it end to end.
pub proof fn lemma_xml_tokens_cover(b: Seq<u8>)
    requires
        xml_tokens(b) is Some,
    ensures
        tokens_cover(xml_tokens(b)->Some_0, b.len()),
{
    lemma_scan_covers(b, 0, 0);
}

/// Splits a document into the tokens that quick-xml's events determine.
pub fn tokenize(input: &[u8]) -> (r: Result<Vec<Token>, XmlError>)
    ensures
        r is Ok <==> xml_tokens(input@) is Some,
        r is Ok ==> xml_tokens(input@) == Some(token_views(r->Ok_0@)),
        r is Ok ==> tokens_cover(token_views(r->Ok_0@), input@.len()),
{
    let mut reader = xml_reader(input);
    let mut toks: Vec<Token> = Vec::new();
    let mut prev: usize = 0;
    assert(token_views(toks@) + scan_tokens(input@, 0, 0)->Some_0 =~= scan_tokens(input@, 0, 0)->Some_0);
    loop
        invariant
            prev <= input@.len(),
            reader_input(reader) == input@,
            tokens_cover_from(token_views(toks@), 0, prev as int),
            xml_tokens(input@) == prepend(token_views(toks@), scan_tokens(input@, reader_events_read(reader), prev as int)),
        decreases input@.len() - prev,
    {
        let ghost n = reader_events_read(reader);
        let ghost done = token_views(toks@);
        let ev = read_event(&mut reader);
        let pos = buffer_position(&reader);
        match ev {
            Err(_) => {
                return Err(XmlError { position: pos });
            },
            Ok(RawEvent::Eof) => {
                if prev < input.len() {
                    let t = Token { kind: TokenKind::Other, start: prev, end: input.len() };
                    toks.push(t);
                    assert(token_views(toks@) =~= done.push(t@));
                    proof {
                        lemma_cover_push(done, 0, prev as int, t@);
                    }
                    assert(done + seq![t@] =~= done.push(t@));
                } else {
                    assert(done + Seq::<TokenView>::empty() =~= done);
                }
                return Ok(toks);
            },
            Ok(RawEvent::Token(kind)) => {
                let ghost k = kind@;
                let end = match kind {
                    TokenKind::Text => if pos < input.len() && input[pos] == 60u8 {
                        pos
                    } else {
                        input.len()
                    },
                    _ => pos,
                };
                assert(end == token_end(input@, k, pos as int));
                if end <= prev || end > input.len() {
                    return Err(XmlError { position: pos });
                }
                let t = Token { kind, start: prev, end };
                assert(t@ == TokenView { kind: k, start: prev as int, end: end as int });
                toks.push(t);
                assert(token_views(toks@) =~= done.push(t@));
                proof {
                    lemma_cover_push(done, 0, prev as int, t@);
                    match scan_tokens(input@, n + 1, end as int) {
                        Some(rest) => {
                            assert(done + (seq![t@] + rest) =~= done.push(t@) + rest);
                        },
                        None => {},
                    }
                }
                prev = end;
            },
        }
    }
}

/// The entity that stands for a byte in text content, or the byte itself.
pub open spec fn escape_byte(b: u8) -> Seq<u8> {
    if b == 60u8 {
        seq![38u8, 108u8, 116u8, 59u8]  // &lt;
    } else if b == 62u8 {
        seq![38u8, 103u8, 116u8, 59u8]  // &gt;
    } else if b == 38u8 {
        seq![38u8, 97u8, 109u8, 112u8, 59u8]  // &amp;
    } else if b == 39u8 {
        seq![38u8, 97u8, 112u8, 111u8, 115u8, 59u8]  // &apos;
    } else if b == 34u8 {
        seq![38u8, 113u8, 117u8, 111u8, 116u8, 59u8]  // &quot;
    } else {
        seq![b]
    }
}

/// Text with `<`, `>`, `&`, `'` and `"` replaced by their entities.
pub open spec fn escaped(b: Seq<u8>) -> Seq<u8>
    decreases b.len(),
{
    if b.len() == 0 {
        Seq::empty()
    } else {
        escaped(b.drop_last()) + escape_byte(b.last())
    }
}

/// Relies on quick_xml::escape::escape: the five markup characters replaced
/// by their entities, every other byte kept.
#[verifier::external_body]
pub(crate) fn escape_text(s: &str) -> (r: Vec<u8>)
    ensures
        r@ == escaped(s.spec_bytes()),
{
    quick_xml::escape::escape(s).as_bytes().to_vec()
}

} // verus!
