//! The segment parser: cuts TeX-like text into spans of plain text, inline
//! math, block math and math environments.
//!
//! Each rule takes the input that is left and gives back the span it read
//! and the input after it, or an error that holds the input it was tried on.
//! The contracts are stated over the rules of [`crate::grammar`].
use vstd::prelude::*;
use vstd::string::*;
use vstd::utf8::*;
use crate::bytes::{
    has_tag, lemma_run_end_bounds, run_end, scan_run, starts_with_at, substr, Class,
    BACKSLASH, DOLLAR, LBRACE, RBRACE, TILDE,
};
pub use crate::grammar::Type;
use crate::grammar::{
    advances, begin_rule, close_of, dollars_at, end_rule, environ_rule, is_environ_name, math_rule,
    next_span, source_of, sources_of, spans_of, text_end, text_rule, text_unit, unparsed, Opening,
    Reading, SpanModel,
};

verus! {

/// A span of the input: its kind and its content, a slice of the input.
///
/// Math spans hold what stands between the dollar signs; text and
/// environment spans hold everything they cover.
#[derive(Debug, Eq, PartialEq)]
pub struct Part<'a> {
    pub typ: Type,
    pub content: &'a str,
}

impl<'a> View for Part<'a> {
    type V = SpanModel;

    open spec fn view(&self) -> SpanModel {
        SpanModel { typ: self.typ, content: self.content.spec_bytes() }
    }
}

impl Type {
    /// A span of this kind with the given content.
    pub fn build<'a>(self, content: &'a str) -> (part: Part<'a>)
        ensures
            part.typ == self,
            part.content@ == content@,
    {
        Part { typ: self, content }
    }
}

impl<'a> Part<'a> {
    pub fn as_str(&self) -> (s: &'a str)
        ensures
            s@ == self.content@,
    {
        self.content
    }
}

/// The name of an environment, as it stands in its opening marker.
#[derive(Clone, Copy, Debug, Eq, PartialEq)]
pub struct EnvironName<'a>(pub &'a str);

/// Why the input could not be segmented: the input that no rule could read.
#[derive(Clone, Copy, Debug, Eq, PartialEq)]
pub struct ParseError<'a> {
    pub input: &'a str,
}

impl<'a> ParseError<'a> {
    /// A description that names the offending input.
    pub fn message(&self) -> (msg: String)
        ensures
            msg@ == "error Eof at: "@ + self.input@,
    {
        let mut msg = String::from_str("error Eof at: ");
        msg.append(self.input);
        msg
    }
}

/// The models of a sequence of spans.
pub open spec fn views<'a>(parts: Seq<Part<'a>>) -> Seq<SpanModel> {
    parts.map_values(|p: Part<'a>| p@)
}

/// What a rule function returns, given what its rule says of the input: on
/// a match the span and the input after it, else an error with the input
/// itself.
pub open spec fn rule_outcome<'a>(
    input: &'a str,
    rule: Option<Reading>,
    r: Result<(&'a str, Part<'a>), ParseError<'a>>,
) -> bool {
    let s = input.spec_bytes();
    match r {
        Ok((rest, part)) => {
            &&& rule is Some
            &&& advances(s, rule)
            &&& part@ == rule->0.span
            &&& rest.spec_bytes() == s.subrange(rule->0.len, s.len() as int)
        },
        Err(e) => rule is None && e.input@ == input@,
    }
}

proof fn lemma_tags()
    ensures
        "\\begin{".spec_bytes().len() == 7,
        "\\begin{".spec_bytes()[6] == LBRACE,
        "\\begin".spec_bytes().len() == 6,
        "\\begin".spec_bytes()[0] == BACKSLASH,
        "\\end".spec_bytes().len() == 4,
        "\\end".spec_bytes()[0] == BACKSLASH,
        "\\end{".spec_bytes().len() == 5,
{
    reveal_strlit("\\begin{");
    reveal_strlit("\\begin");
    reveal_strlit("\\end");
    reveal_strlit("\\end{");
    is_ascii_spec_bytes("\\begin{");
    is_ascii_spec_bytes("\\begin");
    is_ascii_spec_bytes("\\end");
    is_ascii_spec_bytes("\\end{");
}

fn dollars(s: &[u8], p: usize, width: usize) -> (r: bool)
    requires
        width == 1 || width == 2,
        p <= s.len(),
    ensures
        r == dollars_at(s@, p as int, width as int),
{
    if width > s.len() - p {
        return false;
    }
    s[p] == DOLLAR && (width == 1 || s[p + 1] == DOLLAR)
}

fn math<'a>(input: &'a str, width: usize, typ: Type) -> (r: Result<
    (&'a str, Part<'a>),
    ParseError<'a>,
>)
    requires
        (width == 1 && typ == Type::InlineMath) || (width == 2 && typ == Type::BlockMath),
    ensures
        rule_outcome(input, math_rule(input.spec_bytes(), width as int), r),
{
    let s = input.as_bytes();
    if !dollars(s, 0, width) {
        return Err(ParseError { input });
    }
    let q = scan_run(s, width, Class::Content);
    if q == width || !dollars(s, q, width) {
        return Err(ParseError { input });
    }
    let content = substr(input, width, q);
    let rest = substr(input, q + width, s.len());
    Ok((rest, typ.build(content)))
}

/// Inline math: `$`, content without a dollar sign, `$`.
pub fn inline_math<'a>(input: &'a str) -> (r: Result<(&'a str, Part<'a>), ParseError<'a>>)
    ensures
        rule_outcome(input, math_rule(input.spec_bytes(), 1), r),
{
    math(input, 1, Type::InlineMath)
}

/// Block math: `$$`, content without a dollar sign, `$$`.
pub fn block_math<'a>(input: &'a str) -> (r: Result<(&'a str, Part<'a>), ParseError<'a>>)
    ensures
        rule_outcome(input, math_rule(input.spec_bytes(), 2), r),
{
    math(input, 2, Type::BlockMath)
}

fn slice_is(s: &[u8], a: usize, b: usize, word: &str) -> (r: bool)
    requires
        a <= b <= s.len(),
    ensures
        r == (s@.subrange(a as int, b as int) == word.spec_bytes()),
{
    let w = word.as_bytes();
    b - a == w.len() && starts_with_at(s, a, w)
}

fn known_name(s: &[u8], a: usize, b: usize) -> (r: bool)
    requires
        a <= b <= s.len(),
    ensures
        r == is_environ_name(s@.subrange(a as int, b as int)),
{
    slice_is(s, a, b, "equation") || slice_is(s, a, b, "equation*") || slice_is(
        s,
        a,
        b,
        "alignedat",
    ) || slice_is(s, a, b, "alignat") || slice_is(s, a, b, "alignat*") || slice_is(
        s,
        a,
        b,
        "aligned",
    ) || slice_is(s, a, b, "align") || slice_is(s, a, b, "align*") || slice_is(
        s,
        a,
        b,
        "gathered",
    ) || slice_is(s, a, b, "gather") || slice_is(s, a, b, "gather*") || slice_is(s, a, b, "CD")
        || slice_is(s, a, b, "multline") || slice_is(s, a, b, "darray") || slice_is(
        s,
        a,
        b,
        "dcases",
    ) || slice_is(s, a, b, "drcases") || slice_is(s, a, b, "matrix*") || slice_is(
        s,
        a,
        b,
        "pmatrix*",
    ) || slice_is(s, a, b, "bmatrix*") || slice_is(s, a, b, "Bmatrix*") || slice_is(
        s,
        a,
        b,
        "vmatrix*",
    ) || slice_is(s, a, b, "Vmatrix*")
}

/// What [`begin_environ`] returns, given what the rule says of the input.
pub open spec fn begin_outcome<'a>(
    input: &'a str,
    r: Result<(&'a str, EnvironName<'a>), ParseError<'a>>,
) -> bool {
    let s = input.spec_bytes();
    let rule = begin_rule(s);
    match r {
        Ok((rest, name)) => {
            &&& rule is Some
            &&& name.0.spec_bytes() == rule->0.name
            &&& 0 < rule->0.len <= s.len()
            &&& rest.spec_bytes() == s.subrange(rule->0.len, s.len() as int)
        },
        Err(e) => rule is None && e.input@ == input@,
    }
}

/// The marker that opens an environment: `\begin{`, blanks, a recognised
/// name, blanks, `}`.
pub fn begin_environ<'a>(input: &'a str) -> (r: Result<
    (&'a str, EnvironName<'a>),
    ParseError<'a>,
>)
    ensures
        begin_outcome(input, r),
{
    let s = input.as_bytes();
    let tag = "\\begin{".as_bytes();
    if !starts_with_at(s, 0, tag) {
        return Err(ParseError { input });
    }
    let a = scan_run(s, tag.len(), Class::Blank);
    let b = scan_run(s, a, Class::Name);
    let c = scan_run(s, b, Class::Blank);
    if !known_name(s, a, b) || c >= s.len() || s[c] != RBRACE {
        return Err(ParseError { input });
    }
    proof {
        lemma_tags();
        lemma_run_end_bounds(s@, tag@.len() as int, Class::Blank);
        lemma_run_end_bounds(s@, a as int, Class::Name);
        assert(s@.subrange(0, 7)[6] == s@[6]);
    }
    let name = substr(input, a, b);
    let rest = substr(input, c + 1, s.len());
    Ok((rest, EnvironName(name)))
}

fn end_at(s: &[u8], p: usize, name: &[u8]) -> (r: Option<usize>)
    requires
        p <= s.len(),
    ensures
        match r {
            Some(e) => end_rule(s@, p as int, name@) == Some(e as int) && p < e <= s.len(),
            None => end_rule(s@, p as int, name@) is None,
        },
{
    let tag = "\\end{".as_bytes();
    if !starts_with_at(s, p, tag) {
        return None;
    }
    let a = scan_run(s, p + tag.len(), Class::Blank);
    if !starts_with_at(s, a, name) {
        return None;
    }
    let c = scan_run(s, a + name.len(), Class::Blank);
    if c < s.len() && s[c] == RBRACE {
        Some(c + 1)
    } else {
        None
    }
}

/// The marker that closes the environment `name`: `\end{`, blanks, the
/// name, blanks, `}`.
pub fn end_environ<'a>(input: &'a str, name: EnvironName<'_>) -> (r: Result<
    (&'a str, ()),
    ParseError<'a>,
>)
    ensures
        match r {
            Ok((rest, _)) => {
                let rule = end_rule(input.spec_bytes(), 0, name.0.spec_bytes());
                &&& rule is Some
                &&& 0 < rule->0 <= input.spec_bytes().len()
                &&& rest.spec_bytes() == input.spec_bytes().subrange(
                    rule->0,
                    input.spec_bytes().len() as int,
                )
            },
            Err(e) => end_rule(input.spec_bytes(), 0, name.0.spec_bytes()) is None && e.input@
                == input@,
        },
{
    let s = input.as_bytes();
    match end_at(s, 0, name.0.as_bytes()) {
        Some(e) => Ok((substr(input, e, s.len()), ())),
        None => Err(ParseError { input }),
    }
}

/// An environment: its opening marker, then everything up to and with the
/// first closing marker for the same name.
pub fn environ<'a>(input: &'a str) -> (r: Result<(&'a str, Part<'a>), ParseError<'a>>)
    ensures
        rule_outcome(input, environ_rule(input.spec_bytes()), r),
{
    let s = input.as_bytes();
    let (after, name) = match begin_environ(input) {
        Ok(found) => found,
        Err(_) => {
            return Err(ParseError { input });
        },
    };
    let q = s.len() - after.len();
    let nm = name.0.as_bytes();
    let mut p = q;
    while p < s.len()
        invariant
            q <= p <= s.len(),
            s@ == input.spec_bytes(),
            nm@ == name.0.spec_bytes(),
            begin_rule(s@) == Some(Opening { name: nm@, len: q as int }),
            close_of(s@, q as int, nm@) == close_of(s@, p as int, nm@),
        decreases s.len() - p,
    {
        match end_at(s, p, nm) {
            Some(e) => {
                assert(close_of(s@, p as int, nm@) == Some(e as int));
                let content = substr(input, 0, e);
                let rest = substr(input, e, s.len());
                return Ok((rest, Type::Environ.build(content)));
            },
            None => {
                p += 1;
            },
        }
    }
    Err(ParseError { input })
}

fn unit_at(s: &[u8], p: usize) -> (n: usize)
    requires
        p <= s.len(),
    ensures
        n == text_unit(s@, p as int),
        p + n <= s.len(),
{
    if p >= s.len() {
        return 0;
    }
    let c = s[p];
    if c == BACKSLASH && s.len() - p > 1 {
        let d = s[p + 1];
        if d == BACKSLASH || d == DOLLAR || d == TILDE || d == LBRACE || d == RBRACE {
            return 2;
        }
    }
    if c != DOLLAR && !starts_with_at(s, p, "\\begin".as_bytes()) && !starts_with_at(
        s,
        p,
        "\\end".as_bytes(),
    ) {
        1
    } else {
        0
    }
}

/// Text: the longest run of escaped bytes and of bytes that open neither
/// math nor `\begin` nor `\end`. It is never empty.
pub fn text<'a>(input: &'a str) -> (r: Result<(&'a str, Part<'a>), ParseError<'a>>)
    ensures
        rule_outcome(input, text_rule(input.spec_bytes()), r),
{
    let s = input.as_bytes();
    let mut p: usize = 0;
    let mut n = unit_at(s, p);
    while n > 0
        invariant
            p <= s.len(),
            n == text_unit(s@, p as int),
            p + n <= s.len(),
            text_end(s@, 0) == text_end(s@, p as int),
        decreases s.len() - p,
    {
        p += n;
        n = unit_at(s, p);
    }
    if p == 0 {
        return Err(ParseError { input });
    }
    proof {
        lemma_tags();
        if p < s.len() && s@[p as int] != DOLLAR {
            if has_tag(s@, p as int, "\\begin".spec_bytes()) {
                assert(s@.subrange(p as int, p + 6)[0] == s@[p as int]);
            } else {
                assert(s@.subrange(p as int, p + 4)[0] == s@[p as int]);
            }
        }
    }
    let content = substr(input, 0, p);
    let rest = substr(input, p, s.len());
    Ok((rest, Type::Text.build(content)))
}

/// The next span, by the first rule that reads one: block math, inline
/// math, environment, text.
pub fn span<'a>(input: &'a str) -> (r: Result<(&'a str, Part<'a>), ParseError<'a>>)
    ensures
        rule_outcome(input, next_span(input.spec_bytes()), r),
{
    if let Ok(found) = block_math(input) {
        return Ok(found);
    }
    if let Ok(found) = inline_math(input) {
        return Ok(found);
    }
    if let Ok(found) = environ(input) {
        return Ok(found);
    }
    text(input)
}

/// What is read and what is left add up to the input.
pub proof fn lemma_lossless(s: Seq<u8>)
    ensures
        sources_of(spans_of(s)) + unparsed(s) == s,
    decreases s.len(),
{
    let r = next_span(s);
    if advances(s, r) {
        let span = r->0.span;
        let n = r->0.len;
        let rest = s.subrange(n, s.len() as int);
        lemma_lossless(rest);
        lemma_span_source(s);
        let tail = spans_of(rest);
        assert((seq![span] + tail).drop_first() =~= tail);
        assert(sources_of(spans_of(s)) == source_of(span) + sources_of(tail));
        assert(source_of(span) + sources_of(tail) + unparsed(rest) =~= source_of(span) + (
        sources_of(tail) + unparsed(rest)));
        assert(s.subrange(0, n) + rest =~= s);
    } else {
        assert(sources_of(seq![]) + s =~= s);
    }
}

/// The source of the span that a rule reads is the input that it takes.
pub proof fn lemma_span_source(s: Seq<u8>)
    requires
        advances(s, next_span(s)),
    ensures
        source_of(next_span(s)->0.span) == s.subrange(0, next_span(s)->0.len),
{
    let r = next_span(s);
    let n = r->0.len;
    if math_rule(s, 2) is Some {
        let q = run_end(s, 2, Class::Content);
        assert(seq![DOLLAR, DOLLAR] + s.subrange(2, q) + seq![DOLLAR, DOLLAR] =~= s.subrange(
            0,
            n,
        ));
    } else if math_rule(s, 1) is Some {
        let q = run_end(s, 1, Class::Content);
        assert(seq![DOLLAR] + s.subrange(1, q) + seq![DOLLAR] =~= s.subrange(0, n));
    }
}

/// Cuts `input` into spans.
///
/// Succeeds exactly when the rules read the input to its end; the spans are
/// then the ones the grammar gives, in the order of the text, and their
/// sources add up to the input. Otherwise the error holds what is left where
/// no rule applies.
pub fn parse<'a>(input: &'a str) -> (r: Result<Vec<Part<'a>>, ParseError<'a>>)
    ensures
        match r {
            Ok(parts) => {
                &&& unparsed(input.spec_bytes()).len() == 0
                &&& views(parts@) == spans_of(input.spec_bytes())
                &&& sources_of(views(parts@)) == input.spec_bytes()
            },
            Err(e) => {
                &&& unparsed(input.spec_bytes()).len() > 0
                &&& e.input.spec_bytes() == unparsed(input.spec_bytes())
            },
        },
{
    let ghost s = input.spec_bytes();
    let mut parts: Vec<Part<'a>> = Vec::new();
    let mut rest = input;
    let mut step = span(rest);
    proof {
        assert(views(parts@) + spans_of(s) =~= spans_of(s));
    }
    while step.is_ok()
        invariant
            s == input.spec_bytes(),
            spans_of(s) == views(parts@) + spans_of(rest.spec_bytes()),
            unparsed(s) == unparsed(rest.spec_bytes()),
            rule_outcome(rest, next_span(rest.spec_bytes()), step),
        decreases rest.spec_bytes().len(),
    {
        let ghost before = views(parts@);
        let ghost old_rest = rest.spec_bytes();
        let (after, part) = step.unwrap();
        parts.push(part);
        rest = after;
        step = span(rest);
        proof {
            assert(views(parts@) =~= before + seq![part@]);
            assert(before + (seq![part@] + spans_of(rest.spec_bytes())) =~= views(parts@)
                + spans_of(rest.spec_bytes()));
        }
    }
    proof {
        lemma_lossless(s);
        assert(unparsed(rest.spec_bytes()) == rest.spec_bytes());
        assert(spans_of(rest.spec_bytes()) == Seq::<SpanModel>::empty());
        assert(views(parts@) + Seq::<SpanModel>::empty() =~= views(parts@));
    }
    if rest.as_bytes().len() == 0 {
        proof {
            assert(sources_of(views(parts@)) + unparsed(s) =~= sources_of(views(parts@)));
        }
        Ok(parts)
    } else {
        Err(ParseError { input: rest })
    }
}

} // verus!
