use docx_meta::extract::text_of;
use docx_meta::rewrite::{rewrite, Insertion, Target};
use docx_meta::xml::{tokenize, TokenKind};

#[test]
fn tokens_cover_the_document() {
    let doc = b"<?xml version=\"1.0\"?>\n<a x=\"1\"><b/>text<!-- c --></a>\n";
    let toks = tokenize(doc).unwrap();
    assert_eq!(toks[0].start, 0);
    for w in toks.windows(2) {
        assert_eq!(w[0].end, w[1].start);
    }
    assert_eq!(toks.last().unwrap().end, doc.len());
    assert!(matches!(&toks[2].kind, TokenKind::Start(n) if n == b"a"));
    assert!(matches!(&toks[3].kind, TokenKind::Empty(n) if n == b"b"));
    assert!(matches!(toks[4].kind, TokenKind::Text));
    assert!(matches!(toks[5].kind, TokenKind::Other));
    assert!(matches!(&toks[6].kind, TokenKind::End(n) if n == b"a"));
}

#[test]
fn tokenize_rejects_mismatched_end_tag() {
    assert!(tokenize(b"<a><b></a>").is_err());
}

#[test]
fn rewrite_replaces_text_and_keeps_the_rest() {
    let doc = b"<r>\n  <n k=\"v\">old <i>x</i></n>\n  <m>keep</m>\n</r>";
    let toks = tokenize(doc).unwrap();
    let targets = vec![Target { name: b"n".to_vec(), text: b"new".to_vec() }];
    let out = rewrite(doc, &toks, &targets, &None);
    assert_eq!(out, b"<r>\n  <n k=\"v\">new</n>\n  <m>keep</m>\n</r>".to_vec());
}

#[test]
fn rewrite_without_targets_copies() {
    let doc = b"<?xml version=\"1.0\"?><r><!-- note --><m>keep</m>  </r>";
    let toks = tokenize(doc).unwrap();
    let out = rewrite(doc, &toks, &Vec::new(), &None);
    assert_eq!(out, doc.to_vec());
}

#[test]
fn insertion_before_root_end() {
    let doc = b"<P><A>1</A></P>";
    let toks = tokenize(doc).unwrap();
    let targets = vec![Target { name: b"L".to_vec(), text: b"v".to_vec() }];
    let ins = Some(Insertion { root: b"P".to_vec(), name: b"L".to_vec(), text: b"v".to_vec() });
    assert_eq!(rewrite(doc, &toks, &targets, &ins), b"<P><A>1</A><L>v</L></P>".to_vec());
    let empty = Some(Insertion { root: b"P".to_vec(), name: b"L".to_vec(), text: Vec::new() });
    assert_eq!(rewrite(doc, &toks, &targets, &empty), doc.to_vec());
}

#[test]
fn no_insertion_when_element_present() {
    let doc = b"<P><L>old</L></P>";
    let toks = tokenize(doc).unwrap();
    let targets = vec![Target { name: b"L".to_vec(), text: b"v".to_vec() }];
    let ins = Some(Insertion { root: b"P".to_vec(), name: b"L".to_vec(), text: b"v".to_vec() });
    assert_eq!(rewrite(doc, &toks, &targets, &ins), b"<P><L>v</L></P>".to_vec());
}

#[test]
fn text_of_first_element() {
    let doc = b"<r><d>2020-01-01</d><d>other</d><e/></r>";
    let toks = tokenize(doc).unwrap();
    assert_eq!(text_of(doc, &toks, b"d"), Some(b"2020-01-01".to_vec()));
    assert_eq!(text_of(doc, &toks, b"e"), None);
    assert_eq!(text_of(doc, &toks, b"zz"), None);
}
