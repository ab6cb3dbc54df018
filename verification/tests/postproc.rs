use std::borrow::Cow;
use textocx::postproc::{escape_html, escape_text, italic_math, Piece, Type};
use textocx::util::Bind;

fn flat(piece: Piece) -> Vec<String> {
    let mut iter = piece.into_iter();
    let mut out = Vec::new();
    while let Some(item) = iter.next() {
        out.push(item.into_owned());
    }
    assert!(iter.next().is_none());
    out
}

#[test]
fn text_piece_has_no_decoration() {
    let p = Piece::from_text("a<b");
    assert_eq!(p.typ, Type::Text);
    assert_eq!(p.content, "a<b");
    assert!(p.dec.prefix.is_none() && p.dec.suffix.is_none());
    assert_eq!(flat(p), vec!["a<b"]);
}

#[test]
fn math_piece_keeps_its_markup() {
    let p = Piece::from_math(Cow::Owned(String::from("<m:r>x</m:r>")));
    assert_eq!(p.typ, Type::Math);
    assert_eq!(flat(escape_html(p)), vec!["<m:r>x</m:r>"]);
}

#[test]
fn default_piece_is_empty_text() {
    let p = Piece::default();
    assert_eq!(p.typ, Type::Text);
    assert_eq!(flat(p), vec![""]);
}

#[test]
fn italics_go_around_math_only() {
    let math = italic_math(true, Piece::from_math(Cow::Borrowed("<m:r>a+b</m:r>")));
    assert_eq!(flat(math), vec!["<i>", "<m:r>a+b</m:r>", "</i>"]);
    let off = italic_math(false, Piece::from_math(Cow::Borrowed("<m:r>a+b</m:r>")));
    assert_eq!(flat(off), vec!["<m:r>a+b</m:r>"]);
    let text = italic_math(true, Piece::from_text("plain"));
    assert_eq!(flat(text), vec!["plain"]);
}

#[test]
fn text_is_escaped_for_html() {
    assert_eq!(escape_text("a<b & c>d"), "a&lt;b &amp; c&gt;d");
    assert_eq!(escape_text("&&"), "&amp;&amp;");
    assert_eq!(escape_text("<"), "&lt;");
    assert_eq!(escape_text("你<好>"), "你&lt;好&gt;");
    assert_eq!(escape_text("\"quoted\" 'text'"), "\"quoted\" 'text'");
    assert_eq!(escape_text(""), "");
    assert_eq!(flat(escape_html(Piece::from_text("1 < 2"))), vec!["1 &lt; 2"]);
}

#[test]
fn text_without_specials_is_handed_back() {
    assert!(matches!(escape_text("plain 你好"), Cow::Borrowed("plain 你好")));
    assert!(matches!(escape_text("a&b"), Cow::Owned(_)));
}

#[test]
fn decoration_is_not_escaped() {
    let mut p = Piece::from_text("<");
    p.dec.prefix = Some(Cow::Borrowed("<b>"));
    p.dec.suffix = Some(Cow::Borrowed("</b>"));
    assert_eq!(flat(escape_html(p)), vec!["<b>", "&lt;", "</b>"]);
}

#[test]
fn bind_keeps_an_owned_string_where_nothing_is_made() {
    let borrowed: Cow<str> = Cow::Borrowed("a<b");
    assert!(matches!(borrowed.bind(escape_text), Cow::Owned(s) if s == "a&lt;b"));
    let plain: Cow<str> = Cow::Borrowed("ab");
    assert!(matches!(plain.bind(escape_text), Cow::Borrowed("ab")));
    let owned: Cow<str> = Cow::Owned(String::from("ab"));
    assert!(matches!(owned.bind(escape_text), Cow::Owned(s) if s == "ab"));
    let changed: Cow<str> = Cow::Owned(String::from("a&b"));
    assert!(matches!(changed.bind(escape_text), Cow::Owned(s) if s == "a&amp;b"));
    let replaced: Cow<str> = Cow::Owned(String::from("x"));
    assert_eq!(replaced.bind(|_| Cow::Borrowed("other")), "x");
}
