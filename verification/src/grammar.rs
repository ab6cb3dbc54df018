//! The segmentation grammar, as functions on the bytes of the input.
//!
//! At each place the rules are tried in this order: block math, inline math,
//! environment, text. Every delimiter is ASCII, so the grammar can be read
//! byte by byte: a byte of a multi-byte character never equals a delimiter.
use vstd::prelude::*;
use vstd::string::*;
use crate::bytes::{has_tag, run_end, Class, BACKSLASH, DOLLAR, LBRACE, RBRACE, TILDE};

verus! {

/// The kind of a span.
#[derive(Debug, PartialEq, Eq, Structural, Clone, Copy)]
pub enum Type {
    Text,
    InlineMath,
    BlockMath,
    Environ,
}

/// What a span is to the contracts: its kind and the bytes of its content.
pub struct SpanModel {
    pub typ: Type,
    pub content: Seq<u8>,
}

/// What a rule reads at the start of the input: the span, and how many
/// bytes of the input it takes.
pub struct Reading {
    pub span: SpanModel,
    pub len: int,
}

/// What the opening marker of an environment holds: the name, and how many
/// bytes the marker takes.
pub struct Opening {
    pub name: Seq<u8>,
    pub len: int,
}

/// `width` dollar signs stand at `p`, for a width of one or two.
pub open spec fn dollars_at(s: Seq<u8>, p: int, width: int) -> bool {
    &&& 0 <= p
    &&& p + width <= s.len()
    &&& s[p] == DOLLAR
    &&& (width == 2 ==> s[p + 1] == DOLLAR)
}

/// Math between delimiters of `width` dollar signs, at the start of `s`: the
/// content is the non-empty run of bytes up to the next dollar sign, which
/// must open the closing delimiter.
pub open spec fn math_rule(s: Seq<u8>, width: int) -> Option<Reading> {
    let q = run_end(s, width, Class::Content);
    if dollars_at(s, 0, width) && q > width && dollars_at(s, q, width) {
        Some(
            Reading {
                span: SpanModel {
                    typ: if width == 2 {
                        Type::BlockMath
                    } else {
                        Type::InlineMath
                    },
                    content: s.subrange(width, q),
                },
                len: q + width,
            },
        )
    } else {
        None
    }
}

/// The names of the math environments that are recognised.
pub open spec fn is_environ_name(name: Seq<u8>) -> bool {
    ||| name == "equation".spec_bytes()
    ||| name == "equation*".spec_bytes()
    ||| name == "alignedat".spec_bytes()
    ||| name == "alignat".spec_bytes()
    ||| name == "alignat*".spec_bytes()
    ||| name == "aligned".spec_bytes()
    ||| name == "align".spec_bytes()
    ||| name == "align*".spec_bytes()
    ||| name == "gathered".spec_bytes()
    ||| name == "gather".spec_bytes()
    ||| name == "gather*".spec_bytes()
    ||| name == "CD".spec_bytes()
    ||| name == "multline".spec_bytes()
    ||| name == "darray".spec_bytes()
    ||| name == "dcases".spec_bytes()
    ||| name == "drcases".spec_bytes()
    ||| name == "matrix*".spec_bytes()
    ||| name == "pmatrix*".spec_bytes()
    ||| name == "bmatrix*".spec_bytes()
    ||| name == "Bmatrix*".spec_bytes()
    ||| name == "vmatrix*".spec_bytes()
    ||| name == "Vmatrix*".spec_bytes()
}

/// The marker that opens an environment, at the start of `s`: `\begin{`,
/// blanks, a recognised name, blanks, `}`. Gives the name and the length of
/// the marker.
pub open spec fn begin_rule(s: Seq<u8>) -> Option<Opening> {
    let tag = "\\begin{".spec_bytes();
    let a = run_end(s, tag.len() as int, Class::Blank);
    let b = run_end(s, a, Class::Name);
    let c = run_end(s, b, Class::Blank);
    if has_tag(s, 0, tag) && is_environ_name(s.subrange(a, b)) && c < s.len() && s[c] == RBRACE {
        Some(Opening { name: s.subrange(a, b), len: c + 1 })
    } else {
        None
    }
}

/// The marker that closes the environment `name`, at offset `p`: `\end{`,
/// blanks, the name, blanks, `}`. Gives the offset just past the marker.
pub open spec fn end_rule(s: Seq<u8>, p: int, name: Seq<u8>) -> Option<int> {
    let tag = "\\end{".spec_bytes();
    let a = run_end(s, p + tag.len(), Class::Blank);
    let b = a + name.len();
    let c = run_end(s, b, Class::Blank);
    if has_tag(s, p, tag) && has_tag(s, a, name) && c < s.len() && s[c] == RBRACE {
        Some(c + 1)
    } else {
        None
    }
}

/// The end of the first closing marker for `name` that starts at or after
/// `p`.
pub open spec fn close_of(s: Seq<u8>, p: int, name: Seq<u8>) -> Option<int>
    decreases s.len() - p,
{
    if p < 0 || p >= s.len() {
        None
    } else if end_rule(s, p, name) is Some {
        end_rule(s, p, name)
    } else {
        close_of(s, p + 1, name)
    }
}

/// An environment at the start of `s`: from its opening marker to the end of
/// the first closing marker for the same name. The content holds both
/// markers.
pub open spec fn environ_rule(s: Seq<u8>) -> Option<Reading> {
    match begin_rule(s) {
        Some(open) => match close_of(s, open.len, open.name) {
            Some(e) => Some(
                Reading { span: SpanModel { typ: Type::Environ, content: s.subrange(0, e) }, len: e },
            ),
            None => None,
        },
        None => None,
    }
}

pub open spec fn is_escapable(b: u8) -> bool {
    b == BACKSLASH || b == DOLLAR || b == TILDE || b == LBRACE || b == RBRACE
}

/// The length of the unit of text at `p`: 2 for a backslash with the byte it
/// escapes, 1 for a byte that opens neither math nor `\begin` nor `\end`,
/// and 0 where text cannot go on.
pub open spec fn text_unit(s: Seq<u8>, p: int) -> int {
    if 0 <= p && p + 1 < s.len() && s[p] == BACKSLASH && is_escapable(s[p + 1]) {
        2
    } else if 0 <= p < s.len() && s[p] != DOLLAR && !has_tag(s, p, "\\begin".spec_bytes())
        && !has_tag(s, p, "\\end".spec_bytes()) {
        1
    } else {
        0
    }
}

/// The end of the longest run of text units that starts at `p`.
pub open spec fn text_end(s: Seq<u8>, p: int) -> int
    decreases s.len() - p,
{
    if 0 <= p < s.len() && text_unit(s, p) > 0 {
        text_end(s, p + text_unit(s, p))
    } else {
        p
    }
}

/// Text at the start of `s`: the longest run of text units, which must not
/// be empty.
pub open spec fn text_rule(s: Seq<u8>) -> Option<Reading> {
    let e = text_end(s, 0);
    if e > 0 {
        Some(Reading { span: SpanModel { typ: Type::Text, content: s.subrange(0, e) }, len: e })
    } else {
        None
    }
}

/// The span at the start of `s` and its length in the input, by the first
/// rule that applies.
pub open spec fn next_span(s: Seq<u8>) -> Option<Reading> {
    if math_rule(s, 2) is Some {
        math_rule(s, 2)
    } else if math_rule(s, 1) is Some {
        math_rule(s, 1)
    } else if environ_rule(s) is Some {
        environ_rule(s)
    } else {
        text_rule(s)
    }
}

/// A rule's result is usable when it takes at least one byte and no more
/// than there are.
pub open spec fn advances(s: Seq<u8>, r: Option<Reading>) -> bool {
    r matches Some(reading) && 0 < reading.len <= s.len()
}

/// The spans that are read off `s` until no rule applies.
pub open spec fn spans_of(s: Seq<u8>) -> Seq<SpanModel>
    decreases s.len(),
{
    let r = next_span(s);
    if advances(s, r) {
        seq![r->0.span] + spans_of(s.subrange(r->0.len, s.len() as int))
    } else {
        seq![]
    }
}

/// What is left of `s` where no rule applies any more. The input is well
/// formed when nothing is left.
pub open spec fn unparsed(s: Seq<u8>) -> Seq<u8>
    decreases s.len(),
{
    let r = next_span(s);
    if advances(s, r) {
        unparsed(s.subrange(r->0.len, s.len() as int))
    } else {
        s
    }
}

/// The bytes that a span stands for in the input: its content, between its
/// delimiters where it has any.
pub open spec fn source_of(span: SpanModel) -> Seq<u8> {
    match span.typ {
        Type::Text => span.content,
        Type::Environ => span.content,
        Type::InlineMath => seq![DOLLAR] + span.content + seq![DOLLAR],
        Type::BlockMath => seq![DOLLAR, DOLLAR] + span.content + seq![DOLLAR, DOLLAR],
    }
}

/// The sources of `spans`, one after the other.
pub open spec fn sources_of(spans: Seq<SpanModel>) -> Seq<u8>
    decreases spans.len(),
{
    if spans.len() == 0 {
        seq![]
    } else {
        source_of(spans[0]) + sources_of(spans.drop_first())
    }
}

} // verus!
