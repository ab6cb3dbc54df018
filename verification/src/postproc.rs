//! What is done to the pieces of a job once the math is rendered: italic
//! decoration of math, HTML escaping of text, and flattening the pieces
//! into the fragments that the container takes.
use std::borrow::Cow;
use vstd::prelude::*;
use vstd::string::*;
use vstd::utf8::*;
use crate::bytes::{cut_point, string_from_utf8, substr};
use crate::util::Bind;

verus! {

pub const AMPERSAND: u8 = 0x26;

pub const LESS: u8 = 0x3c;

pub const GREATER: u8 = 0x3e;

/// The kind of a piece.
#[derive(Copy, Clone, Eq, PartialEq, Structural, Debug)]
pub enum Type {
    Text,
    Math,
}

/// Markup that is put around the content of a piece.
pub struct Decoration {
    pub prefix: Option<Cow<'static, str>>,
    pub suffix: Option<Cow<'static, str>>,
}

/// A unit of output: plain text, or the markup of rendered math.
pub struct Piece<'a> {
    pub typ: Type,
    pub content: Cow<'a, str>,
    pub dec: Decoration,
}

/// What a piece is to the contracts.
pub struct PieceModel {
    pub typ: Type,
    pub content: Seq<char>,
    pub prefix: Option<Seq<char>>,
    pub suffix: Option<Seq<char>>,
}

pub open spec fn opt_chars(o: Option<Cow<'static, str>>) -> Option<Seq<char>> {
    match o {
        Some(c) => Some(c@),
        None => None,
    }
}

impl<'a> View for Piece<'a> {
    type V = PieceModel;

    open spec fn view(&self) -> PieceModel {
        PieceModel {
            typ: self.typ,
            content: self.content@,
            prefix: opt_chars(self.dec.prefix),
            suffix: opt_chars(self.dec.suffix),
        }
    }
}

/// A piece of the given kind and content, without decoration.
pub open spec fn plain(typ: Type, content: Seq<char>) -> PieceModel {
    PieceModel { typ, content, prefix: None, suffix: None }
}

impl<'a> Default for Piece<'a> {
    /// An empty piece of text.
    fn default() -> (piece: Self)
        ensures
            piece@ == plain(Type::Text, Seq::empty()),
    {
        proof {
            reveal_strlit("");
            assert(""@ =~= Seq::<char>::empty());
        }
        Piece {
            typ: Type::Text,
            content: Cow::Borrowed(""),
            dec: Decoration { prefix: None, suffix: None },
        }
    }
}

impl<'a> Piece<'a> {
    /// A piece of text.
    pub fn from_text(t: &'a str) -> (piece: Self)
        ensures
            piece@ == plain(Type::Text, t@),
    {
        Piece {
            typ: Type::Text,
            content: Cow::Borrowed(t),
            dec: Decoration { prefix: None, suffix: None },
        }
    }

    /// A piece of rendered math.
    pub fn from_math(m: Cow<'a, str>) -> (piece: Self)
        ensures
            piece@ == plain(Type::Math, m@),
    {
        Piece { typ: Type::Math, content: m, dec: Decoration { prefix: None, suffix: None } }
    }

    /// The fragments of the piece, in the order in which they are written.
    pub fn into_iter(self) -> (iter: PieceIter<'a>)
        ensures
            iter@ == fragments_of_piece(self@),
    {
        let iter = PieceIter {
            prefix: self.dec.prefix,
            content: Some(self.content),
            suffix: self.dec.suffix,
        };
        proof {
            assert(iter@ =~= fragments_of_piece(self@));
        }
        iter
    }
}

/// The strings that a piece is written as: its prefix if it has one, its
/// content, its suffix if it has one.
pub open spec fn fragments_of_piece(p: PieceModel) -> Seq<Seq<char>> {
    opt_seq(p.prefix) + seq![p.content] + opt_seq(p.suffix)
}

pub open spec fn opt_seq(o: Option<Seq<char>>) -> Seq<Seq<char>> {
    match o {
        Some(s) => seq![s],
        None => seq![],
    }
}

/// The fragments of a piece that have not been handed out yet.
pub struct PieceIter<'a> {
    prefix: Option<Cow<'static, str>>,
    content: Option<Cow<'a, str>>,
    suffix: Option<Cow<'static, str>>,
}

impl<'a> View for PieceIter<'a> {
    type V = Seq<Seq<char>>;

    closed spec fn view(&self) -> Seq<Seq<char>> {
        opt_seq(opt_chars(self.prefix)) + opt_seq(
            match self.content {
                Some(c) => Some(c@),
                None => None,
            },
        ) + opt_seq(opt_chars(self.suffix))
    }
}

impl<'a> PieceIter<'a> {
    /// Hands out the next fragment, if one is left.
    pub fn next(&mut self) -> (item: Option<Cow<'a, str>>)
        ensures
            match item {
                Some(c) => old(self)@.len() > 0 && c@ == old(self)@[0] && final(self)@ == old(
                    self,
                )@.drop_first(),
                None => old(self)@.len() == 0 && final(self)@.len() == 0,
            },
    {
        let ghost before = self@;
        if let Some(c) = self.prefix.take() {
            proof {
                assert(self@ =~= before.drop_first());
            }
            return Some(c);
        }
        if let Some(c) = self.content.take() {
            proof {
                assert(self@ =~= before.drop_first());
            }
            return Some(c);
        }
        if let Some(c) = self.suffix.take() {
            proof {
                assert(self@ =~= before.drop_first());
            }
            return Some(c);
        }
        None
    }
}

/// What [`italic_math`] makes of a piece.
pub open spec fn italic_spec(enabled: bool, p: PieceModel) -> PieceModel {
    if enabled && p.typ == Type::Math {
        PieceModel { prefix: Some("<i>"@), suffix: Some("</i>"@), ..p }
    } else {
        p
    }
}

/// Puts a math piece between `<i>` and `</i>` when italics are enabled; any
/// other piece is left as it is.
pub fn italic_math<'a>(enabled: bool, p: Piece<'a>) -> (piece: Piece<'a>)
    ensures
        piece@ == italic_spec(enabled, p@),
{
    let mut p = p;
    if enabled && p.typ == Type::Math {
        p.dec = Decoration { prefix: Some(Cow::Borrowed("<i>")), suffix: Some(Cow::Borrowed("</i>")) };
    }
    p
}

/// What a byte of text becomes in HTML.
pub open spec fn escape_byte(b: u8) -> Seq<u8> {
    if b == AMPERSAND {
        "&amp;".spec_bytes()
    } else if b == LESS {
        "&lt;".spec_bytes()
    } else if b == GREATER {
        "&gt;".spec_bytes()
    } else {
        seq![b]
    }
}

/// The bytes of a text with `&`, `<` and `>` replaced by their entities.
pub open spec fn escape_bytes(s: Seq<u8>) -> Seq<u8>
    decreases s.len(),
{
    if s.len() == 0 {
        seq![]
    } else {
        escape_bytes(s.drop_last()) + escape_byte(s.last())
    }
}

/// A text with `&`, `<` and `>` replaced by their entities.
pub open spec fn escape_chars(s: Seq<char>) -> Seq<char> {
    decode_utf8(escape_bytes(encode_utf8(s)))
}

pub open spec fn is_special(b: u8) -> bool {
    b == AMPERSAND || b == LESS || b == GREATER
}

/// Escaping goes piece by piece.
pub proof fn lemma_escape_concat(a: Seq<u8>, b: Seq<u8>)
    ensures
        escape_bytes(a + b) == escape_bytes(a) + escape_bytes(b),
    decreases b.len(),
{
    if b.len() == 0 {
        assert(a + b =~= a);
        assert(escape_bytes(a) + escape_bytes(b) =~= escape_bytes(a));
    } else {
        lemma_escape_concat(a, b.drop_last());
        assert((a + b).drop_last() =~= a + b.drop_last());
        assert((a + b).last() == b.last());
        assert(escape_bytes(a) + (escape_bytes(b.drop_last()) + escape_byte(b.last()))
            =~= escape_bytes(a) + escape_bytes(b.drop_last()) + escape_byte(b.last()));
    }
}

/// Bytes without `&`, `<` and `>` are left as they are.
pub proof fn lemma_escape_plain(s: Seq<u8>)
    requires
        forall|i: int| 0 <= i < s.len() ==> !is_special(s[i]),
    ensures
        escape_bytes(s) == s,
    decreases s.len(),
{
    if s.len() > 0 {
        lemma_escape_plain(s.drop_last());
        assert(s.drop_last() + seq![s.last()] =~= s);
    }
}

fn entity(b: u8) -> (e: &'static str)
    requires
        is_special(b),
    ensures
        e.spec_bytes() == escape_byte(b),
{
    if b == AMPERSAND {
        "&amp;"
    } else if b == LESS {
        "&lt;"
    } else {
        "&gt;"
    }
}

/// Replaces `&`, `<` and `>` by their entities. A text that holds none of
/// them is handed back as it is.
pub fn escape_text<'a>(text: &'a str) -> (escaped: Cow<'a, str>)
    ensures
        encode_utf8(escaped@) == escape_bytes(text.spec_bytes()),
        escaped@ == escape_chars(text@),
        escaped is Borrowed ==> escaped@ == text@,
{
    let s = text.as_bytes();
    let mut out: Vec<u8> = Vec::new();
    let mut start: usize = 0;
    let mut i: usize = 0;
    proof {
        assert(s@.subrange(0, 0) =~= Seq::<u8>::empty());
    }
    while i < s.len()
        invariant
            start <= i <= s.len(),
            s@ == text.spec_bytes(),
            cut_point(s@, start as int),
            out@ == escape_bytes(s@.subrange(0, start as int)),
            valid_utf8(out@),
            forall|k: int| start <= k < i ==> !is_special(s@[k]),
            start == 0 ==> out@.len() == 0,
        decreases s.len() - i,
    {
        let b = s[i];
        if b == AMPERSAND || b == LESS || b == GREATER {
            let run = substr(text, start, i);
            let e = entity(b);
            let ghost before = out@;
            out.extend_from_slice(run.as_bytes());
            let ghost middle = out@;
            out.extend_from_slice(e.as_bytes());
            proof {
                let head = s@.subrange(0, start as int);
                let r = s@.subrange(start as int, i as int);
                assert(middle =~= before + r);
                assert(out@ =~= middle + escape_byte(b));
                lemma_escape_plain(r);
                lemma_escape_concat(head, r);
                assert(head + r =~= s@.subrange(0, i as int));
                assert(s@.subrange(0, i + 1).drop_last() =~= s@.subrange(0, i as int));
                encode_utf8_valid_utf8(run@);
                encode_utf8_valid_utf8(e@);
                valid_utf8_concat(before, r);
                valid_utf8_concat(middle, escape_byte(b));
            }
            start = i + 1;
        }
        i += 1;
    }
    if start == 0 {
        proof {
            lemma_escape_plain(s@);
            encode_utf8_decode_utf8(text@);
        }
        return Cow::Borrowed(text);
    }
    let run = substr(text, start, s.len());
    let ghost before = out@;
    out.extend_from_slice(run.as_bytes());
    proof {
        let head = s@.subrange(0, start as int);
        let r = s@.subrange(start as int, s@.len() as int);
        assert(out@ =~= before + r);
        lemma_escape_plain(r);
        lemma_escape_concat(head, r);
        assert(head + r =~= s@);
        encode_utf8_valid_utf8(run@);
        valid_utf8_concat(before, r);
    }
    let escaped = string_from_utf8(out).unwrap();
    proof {
        encode_utf8_decode_utf8(escaped@);
    }
    Cow::Owned(escaped)
}

/// What [`escape_html`] makes of a piece.
pub open spec fn escape_spec(p: PieceModel) -> PieceModel {
    if p.typ == Type::Text {
        PieceModel { content: escape_chars(p.content), ..p }
    } else {
        p
    }
}

/// Escapes the content of a text piece for HTML; math is markup already
/// and is left as it is.
pub fn escape_html<'a>(p: Piece<'a>) -> (piece: Piece<'a>)
    ensures
        piece@ == escape_spec(p@),
{
    if p.typ == Type::Text {
        let Piece { typ, content, dec } = p;
        Piece { typ, content: content.bind(escape_text), dec }
    } else {
        p
    }
}

/// The fragments of the pieces, in order.
pub open spec fn fragments_of(pieces: Seq<PieceModel>) -> Seq<Seq<char>>
    decreases pieces.len(),
{
    if pieces.len() == 0 {
        seq![]
    } else {
        fragments_of(pieces.drop_last()) + fragments_of_piece(pieces.last())
    }
}

} // verus!
