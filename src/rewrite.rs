//! Replaces the text of chosen elements in an XML document, copying every
//! other byte, and optionally adds a missing element before a closing tag.
use crate::bytes::{bytes_eq, push_all, push_range};
use crate::extract::{first_end_from, is_end_of, is_start_of, lemma_tokens_ordered};
use crate::xml::{
    joined_spans, lemma_joined_prefix, lemma_tokens_rebuild, span, token_views, tokens_cover, KindView, Token,
    TokenKind, TokenView,
};
use vstd::prelude::*;

verus! {

/// An element whose text is to be replaced, and the new text.
pub struct Target {
    pub name: Vec<u8>,
    pub text: Vec<u8>,
}

/// An element `name` holding `text`, to be added just before the end tag of
/// `root` when no element `name` has been met by then and `text` is not empty.
pub struct Insertion {
    pub root: Vec<u8>,
    pub name: Vec<u8>,
    pub text: Vec<u8>,
}

impl View for Target {
    /// (name, text)
    type V = (Seq<u8>, Seq<u8>);

    open spec fn view(&self) -> (Seq<u8>, Seq<u8>) {
        (self.name@, self.text@)
    }
}

impl View for Insertion {
    /// (root, name, text)
    type V = (Seq<u8>, Seq<u8>, Seq<u8>);

    open spec fn view(&self) -> (Seq<u8>, Seq<u8>, Seq<u8>) {
        (self.root@, self.name@, self.text@)
    }
}

/// The targets of a rewrite, as (name, text) pairs.
pub open spec fn targets_view(targets: Seq<Target>) -> Seq<(Seq<u8>, Seq<u8>)> {
    targets.map_values(|t: Target| t@)
}

/// The insertion of a rewrite, as (root, name, text).
pub open spec fn insertion_view(ins: Option<Insertion>) -> Option<(Seq<u8>, Seq<u8>, Seq<u8>)> {
    match ins {
        Some(x) => Some(x@),
        None => None,
    }
}

/// The new text for an element name: that of the first target from index `i`
/// on whose name it is.
pub open spec fn lookup_from(targets: Seq<(Seq<u8>, Seq<u8>)>, name: Seq<u8>, i: int) -> Option<Seq<u8>>
    decreases targets.len() - i,
{
    if i < 0 || i >= targets.len() {
        None
    } else if targets[i].0 == name {
        Some(targets[i].1)
    } else {
        lookup_from(targets, name, i + 1)
    }
}

pub open spec fn lookup(targets: Seq<(Seq<u8>, Seq<u8>)>, name: Seq<u8>) -> Option<Seq<u8>> {
    lookup_from(targets, name, 0)
}

/// `<name>text</name>`
pub open spec fn element(name: Seq<u8>, text: Seq<u8>) -> Seq<u8> {
    seq![60u8] + name + seq![62u8] + text + seq![60u8, 47u8] + name + seq![62u8]
}

/// The start tag held by the span of an empty-element tag: `<n a="v"/>`
/// becomes `<n a="v">`.
pub open spec fn opened(sp: Seq<u8>) -> Seq<u8> {
    if sp.len() >= 2 {
        sp.subrange(0, sp.len() - 2) + seq![62u8]
    } else {
        sp
    }
}

/// `</name>`
pub open spec fn closing(name: Seq<u8>) -> Seq<u8> {
    seq![60u8, 47u8] + name + seq![62u8]
}

pub open spec fn is_inserted_name(ins: Option<(Seq<u8>, Seq<u8>, Seq<u8>)>, name: Seq<u8>) -> bool {
    ins is Some && ins->Some_0.1 == name
}

pub open spec fn inserts_before(ins: Option<(Seq<u8>, Seq<u8>, Seq<u8>)>, name: Seq<u8>, found: bool) -> bool {
    ins is Some && ins->Some_0.0 == name && !found && ins->Some_0.2.len() > 0
}

/// What the rewriter has written, the name of the element whose content it is
/// dropping (if any), and whether the inserted element's name has been met.
pub type RewriteState = (Seq<u8>, Option<Seq<u8>>, bool);

/// The effect of one token on the rewriter's state.
pub open spec fn step(
    input: Seq<u8>,
    targets: Seq<(Seq<u8>, Seq<u8>)>,
    ins: Option<(Seq<u8>, Seq<u8>, Seq<u8>)>,
    s: RewriteState,
    t: TokenView,
) -> RewriteState {
    let out = s.0;
    let found = s.2;
    let sp = span(input, t);
    match s.1 {
        Some(k) => match t.kind {
            KindView::End(n) => if n == k {
                (out + sp, None, found)
            } else {
                s
            },
            _ => s,
        },
        None => match t.kind {
            KindView::Start(n) => {
                let f = found || is_inserted_name(ins, n);
                match lookup(targets, n) {
                    Some(v) => (out + sp + v, Some(n), f),
                    None => (out + sp, None, f),
                }
            },
            KindView::Empty(n) => {
                let f = found || is_inserted_name(ins, n);
                match lookup(targets, n) {
                    Some(v) => (out + opened(sp) + v + closing(n), None, f),
                    None => (out + sp, None, f),
                }
            },
            KindView::End(n) => if inserts_before(ins, n, found) {
                (out + element(ins->Some_0.1, ins->Some_0.2) + sp, None, true)
            } else {
                (out + sp, None, found)
            },
            _ => (out + sp, None, found),
        },
    }
}

/// The rewriter's state after the first `n` tokens.
pub open spec fn rewrite_upto(
    input: Seq<u8>,
    toks: Seq<TokenView>,
    targets: Seq<(Seq<u8>, Seq<u8>)>,
    ins: Option<(Seq<u8>, Seq<u8>, Seq<u8>)>,
    n: nat,
) -> RewriteState
    decreases n,
{
    if n == 0 || n > toks.len() {
        (Seq::empty(), None, false)
    } else {
        step(input, targets, ins, rewrite_upto(input, toks, targets, ins, (n - 1) as nat), toks[n - 1])
    }
}

/// The rewritten document.
pub open spec fn rewritten(
    input: Seq<u8>,
    toks: Seq<TokenView>,
    targets: Seq<(Seq<u8>, Seq<u8>)>,
    ins: Option<(Seq<u8>, Seq<u8>, Seq<u8>)>,
) -> Seq<u8> {
    rewrite_upto(input, toks, targets, ins, toks.len()).0
}

/// The index of the first target named `name`.
fn find_target(targets: &Vec<Target>, name: &[u8]) -> (r: Option<usize>)
    ensures
        r is None ==> lookup(targets_view(targets@), name@) is None,
        r is Some ==> r->Some_0 < targets@.len() && lookup(targets_view(targets@), name@) == Some(
            targets@[r->Some_0 as int].text@,
        ),
{
    let mut i: usize = 0;
    while i < targets.len()
        invariant
            i <= targets@.len(),
            lookup(targets_view(targets@), name@) == lookup_from(targets_view(targets@), name@, i as int),
        decreases targets@.len() - i,
    {
        if bytes_eq(targets[i].name.as_slice(), name) {
            return Some(i);
        }
        i = i + 1;
    }
    None
}

/// Appends `<name>text</name>`.
fn push_element(out: &mut Vec<u8>, name: &[u8], text: &[u8])
    ensures
        final(out)@ == old(out)@ + element(name@, text@),
{
    let ghost base = out@;
    out.push(60u8);
    push_all(out, name);
    out.push(62u8);
    push_all(out, text);
    out.push(60u8);
    out.push(47u8);
    push_all(out, name);
    out.push(62u8);
    assert(out@ =~= base + element(name@, text@));
}

/// Rewrites a tokenized document: the content of each element named by a
/// target becomes the target's text (an empty-element tag is opened and
/// closed around it), an insertion is made where it applies, and every other
/// byte is copied.
pub fn rewrite(input: &[u8], toks: &Vec<Token>, targets: &Vec<Target>, ins: &Option<Insertion>) -> (r: Vec<u8>)
    requires
        tokens_cover(token_views(toks@), input@.len()),
    ensures
        r@ == rewritten(input@, token_views(toks@), targets_view(targets@), insertion_view(*ins)),
{
    let mut out: Vec<u8> = Vec::new();
    let mut skip: Option<usize> = None;
    let mut found: bool = false;
    let mut i: usize = 0;
    while i < toks.len()
        invariant
            tokens_cover(token_views(toks@), input@.len()),
            i <= toks@.len(),
            ({
                let s = rewrite_upto(input@, token_views(toks@), targets_view(targets@), insertion_view(*ins), i as nat);
                &&& s.0 == out@
                &&& s.2 == found
                &&& (skip is None <==> s.1 is None)
                &&& skip is Some ==> skip->Some_0 < toks@.len() && (match token_views(toks@)[skip->Some_0 as int].kind {
                    KindView::Start(n) => s.1 == Some(n),
                    _ => false,
                })
            }),
        decreases toks@.len() - i,
    {
        let t = &toks[i];
        assert(token_views(toks@)[i as int] == toks@[i as int]@);
        assert(token_views(toks@)[i as int].start <= token_views(toks@)[i as int].end);
        assert(token_views(toks@)[i as int].end <= input@.len());
        match skip {
            Some(j) => {
                if let TokenKind::End(n) = &t.kind {
                    if let TokenKind::Start(k) = &toks[j].kind {
                        if bytes_eq(n.as_slice(), k.as_slice()) {
                            push_range(&mut out, input, t.start, t.end);
                            skip = None;
                        }
                    }
                }
            },
            None => {
                match &t.kind {
                    TokenKind::Start(n) => {
                        if let Some(ins_v) = ins {
                            if bytes_eq(ins_v.name.as_slice(), n.as_slice()) {
                                found = true;
                            }
                        }
                        push_range(&mut out, input, t.start, t.end);
                        if let Some(k) = find_target(targets, n.as_slice()) {
                            push_all(&mut out, targets[k].text.as_slice());
                            skip = Some(i);
                        }
                    },
                    TokenKind::Empty(n) => {
                        if let Some(ins_v) = ins {
                            if bytes_eq(ins_v.name.as_slice(), n.as_slice()) {
                                found = true;
                            }
                        }
                        match find_target(targets, n.as_slice()) {
                            Some(k) => {
                                if t.end - t.start >= 2 {
                                    push_range(&mut out, input, t.start, t.end - 2);
                                    out.push(62u8);
                                } else {
                                    push_range(&mut out, input, t.start, t.end);
                                }
                                push_all(&mut out, targets[k].text.as_slice());
                                out.push(60u8);
                                out.push(47u8);
                                push_all(&mut out, n.as_slice());
                                out.push(62u8);
                            },
                            None => {
                                push_range(&mut out, input, t.start, t.end);
                            },
                        }
                    },
                    TokenKind::End(n) => {
                        if let Some(ins_v) = ins {
                            if !found && ins_v.text.len() > 0 && bytes_eq(ins_v.root.as_slice(), n.as_slice()) {
                                push_element(&mut out, ins_v.name.as_slice(), ins_v.text.as_slice());
                                found = true;
                            }
                        }
                        push_range(&mut out, input, t.start, t.end);
                    },
                    _ => {
                        push_range(&mut out, input, t.start, t.end);
                    },
                }
            },
        }
        i = i + 1;
    }
    out
}

/// Token `i` agrees with the targets: a start tag of a target's element is
/// followed, up to the next end tag of that name, by exactly the target's
/// text; no target's element is an empty-element tag.
pub open spec fn keeps_target_text(input: Seq<u8>, toks: Seq<TokenView>, targets: Seq<(Seq<u8>, Seq<u8>)>, i: int) -> bool {
    match toks[i].kind {
        KindView::Start(n) => match lookup(targets, n) {
            Some(v) => match first_end_from(toks, n, i + 1) {
                Some(j) => input.subrange(toks[i].end as int, toks[j].start as int) == v,
                None => false,
            },
            None => true,
        },
        KindView::Empty(n) => lookup(targets, n) is None,
        _ => true,
    }
}

/// Every element of the document that a target names already holds the
/// target's text.
pub open spec fn holds_target_texts(input: Seq<u8>, toks: Seq<TokenView>, targets: Seq<(Seq<u8>, Seq<u8>)>) -> bool {
    forall|i: int| 0 <= i < toks.len() ==> #[trigger] keeps_target_text(input, toks, targets, i)
}

proof fn lemma_end_search_moves(toks: Seq<TokenView>, k: Seq<u8>, m: int)
    requires
        0 <= m < toks.len(),
        !is_end_of(toks[m], k),
    ensures
        first_end_from(toks, k, m) == first_end_from(toks, k, m + 1),
{
}

/// The state after `m` tokens of a rewrite that only restates texts: outside
/// a target's element the output is the input so far; inside one opened at
/// the returned index `i`, it is the input up to that start tag and the text.
proof fn lemma_restating_upto(input: Seq<u8>, toks: Seq<TokenView>, targets: Seq<(Seq<u8>, Seq<u8>)>, m: nat) -> (i: int)
    requires
        tokens_cover(toks, input.len()),
        holds_target_texts(input, toks, targets),
        m <= toks.len(),
    ensures
        ({
            let s = rewrite_upto(input, toks, targets, None, m);
            &&& s.1 is None ==> s.0 == joined_spans(input, toks, m)
            &&& s.1 matches Some(k) ==> {
                &&& 0 <= i < m
                &&& is_start_of(toks[i], k)
                &&& lookup(targets, k) is Some
                &&& s.0 == joined_spans(input, toks, (i + 1) as nat) + lookup(targets, k)->Some_0
                &&& first_end_from(toks, k, i + 1) == first_end_from(toks, k, m as int)
            }
        }),
    decreases m,
{
    if m == 0 {
        return 0;
    }
    let p = (m - 1) as nat;
    let i0 = lemma_restating_upto(input, toks, targets, p);
    let s = rewrite_upto(input, toks, targets, None, p);
    let t = toks[p as int];
    assert(keeps_target_text(input, toks, targets, p as int));
    match s.1 {
        None => {
            if let KindView::Start(n) = t.kind {
                if lookup(targets, n) is Some {
                    return p as int;
                }
            }
            p as int
        },
        Some(k) => {
            if is_end_of(t, k) {
                assert(first_end_from(toks, k, p as int) == Some(p as int));
                let v = lookup(targets, k)->Some_0;
                assert(keeps_target_text(input, toks, targets, i0));
                let ti = toks[i0];
                lemma_joined_prefix(input, toks, (i0 + 1) as nat);
                lemma_joined_prefix(input, toks, m);
                lemma_tokens_ordered(toks, input.len(), i0, p as int);
                assert(input.subrange(ti.end as int, t.start as int) == v);
                assert(input.subrange(0, ti.end as int) + input.subrange(ti.end as int, t.start as int)
                    + input.subrange(t.start as int, t.end as int) =~= input.subrange(0, t.end as int));
                p as int
            } else {
                lemma_end_search_moves(toks, k, p as int);
                i0
            }
        },
    }
}

/// Rewriting a document with the texts that its target elements already hold
/// gives the document back byte for byte.
pub proof fn lemma_restating_texts_changes_nothing(input: Seq<u8>, toks: Seq<TokenView>, targets: Seq<(Seq<u8>, Seq<u8>)>)
    requires
        tokens_cover(toks, input.len()),
        holds_target_texts(input, toks, targets),
    ensures
        rewritten(input, toks, targets, None) == input,
{
    let i = lemma_restating_upto(input, toks, targets, toks.len());
    let s = rewrite_upto(input, toks, targets, None, toks.len());
    if let Some(k) = s.1 {
        assert(keeps_target_text(input, toks, targets, i));
        assert(first_end_from(toks, k, toks.len() as int) is None);
    }
    lemma_tokens_rebuild(input, toks);
}

} // verus!
