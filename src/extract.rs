//! Reads the text of a named element out of a tokenized document.
use crate::bytes::{bytes_eq, push_range};
use crate::xml::{token_views, tokens_cover, KindView, Token, TokenKind, TokenView};
use vstd::prelude::*;

verus! {

pub open spec fn is_start_of(t: TokenView, name: Seq<u8>) -> bool {
    match t.kind {
        KindView::Start(n) => n == name,
        _ => false,
    }
}

pub open spec fn is_end_of(t: TokenView, name: Seq<u8>) -> bool {
    match t.kind {
        KindView::End(n) => n == name,
        _ => false,
    }
}

/// The index of the first start tag of `name` at or after `i`.
pub open spec fn first_start_from(toks: Seq<TokenView>, name: Seq<u8>, i: int) -> Option<int>
    decreases toks.len() - i,
{
    if i < 0 || i >= toks.len() {
        None
    } else if is_start_of(toks[i], name) {
        Some(i)
    } else {
        first_start_from(toks, name, i + 1)
    }
}

/// The index of the first end tag of `name` at or after `i`.
pub open spec fn first_end_from(toks: Seq<TokenView>, name: Seq<u8>, i: int) -> Option<int>
    decreases toks.len() - i,
{
    if i < 0 || i >= toks.len() {
        None
    } else if is_end_of(toks[i], name) {
        Some(i)
    } else {
        first_end_from(toks, name, i + 1)
    }
}

/// The raw bytes between the first start tag of `name` and the first end tag
/// of `name` after it; none where either is missing.
pub open spec fn element_text(input: Seq<u8>, toks: Seq<TokenView>, name: Seq<u8>) -> Option<Seq<u8>> {
    match first_start_from(toks, name, 0) {
        None => None,
        Some(i) => match first_end_from(toks, name, i + 1) {
            None => None,
            Some(j) => Some(input.subrange(toks[i].end as int, toks[j].start as int)),
        },
    }
}

/// Covering tokens are ordered: an earlier token ends no later than a later one starts.
pub proof fn lemma_tokens_ordered(toks: Seq<TokenView>, len: nat, i: int, j: int)
    requires
        tokens_cover(toks, len),
        0 <= i < j < toks.len(),
    ensures
        toks[i].end <= toks[j].start,
    decreases j - i,
{
    if j > i + 1 {
        lemma_tokens_ordered(toks, len, i, j - 1);
        assert(toks[j - 1].start <= toks[j - 1].end);
    }
}

fn find_start(toks: &Vec<Token>, name: &[u8], from: usize) -> (r: Option<usize>)
    ensures
        r matches Some(k) ==> from <= k < toks@.len() && first_start_from(token_views(toks@), name@, from as int) == Some(k as int),
        r is None ==> first_start_from(token_views(toks@), name@, from as int) is None,
    decreases toks@.len() - from,
{
    if from >= toks.len() {
        return None;
    }
    assert(token_views(toks@)[from as int] == toks@[from as int]@);
    let hit = match &toks[from].kind {
        TokenKind::Start(n) => bytes_eq(n.as_slice(), name),
        _ => false,
    };
    if hit {
        Some(from)
    } else {
        find_start(toks, name, from + 1)
    }
}

fn find_end(toks: &Vec<Token>, name: &[u8], from: usize) -> (r: Option<usize>)
    ensures
        r matches Some(k) ==> from <= k < toks@.len() && first_end_from(token_views(toks@), name@, from as int) == Some(k as int),
        r is None ==> first_end_from(token_views(toks@), name@, from as int) is None,
    decreases toks@.len() - from,
{
    if from >= toks.len() {
        return None;
    }
    assert(token_views(toks@)[from as int] == toks@[from as int]@);
    let hit = match &toks[from].kind {
        TokenKind::End(n) => bytes_eq(n.as_slice(), name),
        _ => false,
    };
    if hit {
        Some(from)
    } else {
        find_end(toks, name, from + 1)
    }
}

/// The text of the first element named `name`, as it stands in the document.
pub fn text_of(input: &[u8], toks: &Vec<Token>, name: &[u8]) -> (r: Option<Vec<u8>>)
    requires
        tokens_cover(token_views(toks@), input@.len()),
    ensures
        r matches Some(v) ==> element_text(input@, token_views(toks@), name@) == Some(v@),
        r is None ==> element_text(input@, token_views(toks@), name@) is None,
{
    match find_start(toks, name, 0) {
        None => None,
        Some(i) => {
            let count = toks.len();
            assert(i + 1 <= count);
            match find_end(toks, name, i + 1) {
                None => None,
                Some(j) => {
                    proof {
                        lemma_tokens_ordered(token_views(toks@), input@.len(), i as int, j as int);
                    }
                    let mut out: Vec<u8> = Vec::new();
                    push_range(&mut out, input, toks[i].end, toks[j].start);
                    assert(token_views(toks@)[i as int] == toks@[i as int]@ && token_views(toks@)[j as int] == toks@[j as int]@);
                    assert(out@ =~= input@.subrange(toks@[i as int].end as int, toks@[j as int].start as int));
                    Some(out)
                },
            }
        },
    }
}

} // verus!
