//! What the parser owes to well-formed input, and what it refuses.
//!
//! A document that is written span by span, with balanced dollar signs and
//! complete environments, is read back as the same spans. A document with a
//! dollar sign too many, or with a `\begin` that opens no complete
//! environment, is rejected.
use vstd::prelude::*;
use vstd::string::*;
use crate::bytes::{
    has_tag, in_class, lemma_run_end_bounds, run_end, Class, BACKSLASH, DOLLAR, RBRACE,
};
use crate::grammar::{
    advances, begin_rule, close_of, end_rule, environ_rule, math_rule, next_span, source_of,
    sources_of, spans_of, text_end, text_unit, unparsed, Reading, SpanModel, Type,
};

verus! {

proof fn lemma_tag_bytes()
    ensures
        "\\begin{".spec_bytes() == seq![0x5cu8, 0x62, 0x65, 0x67, 0x69, 0x6e, 0x7b],
        "\\begin".spec_bytes() == seq![0x5cu8, 0x62, 0x65, 0x67, 0x69, 0x6e],
        "\\end{".spec_bytes() == seq![0x5cu8, 0x65, 0x6e, 0x64, 0x7b],
        "\\end".spec_bytes() == seq![0x5cu8, 0x65, 0x6e, 0x64],
{
    reveal_strlit("\\begin{");
    reveal_strlit("\\begin");
    reveal_strlit("\\end{");
    reveal_strlit("\\end");
    is_ascii_spec_bytes("\\begin{");
    is_ascii_spec_bytes("\\begin");
    is_ascii_spec_bytes("\\end{");
    is_ascii_spec_bytes("\\end");
    assert("\\begin{".spec_bytes() =~= seq![0x5cu8, 0x62, 0x65, 0x67, 0x69, 0x6e, 0x7b]);
    assert("\\begin".spec_bytes() =~= seq![0x5cu8, 0x62, 0x65, 0x67, 0x69, 0x6e]);
    assert("\\end{".spec_bytes() =~= seq![0x5cu8, 0x65, 0x6e, 0x64, 0x7b]);
    assert("\\end".spec_bytes() =~= seq![0x5cu8, 0x65, 0x6e, 0x64]);
}

/// The bytes under a tag are the bytes of the tag.
proof fn lemma_tag_byte(s: Seq<u8>, p: int, tag: Seq<u8>, k: int)
    requires
        has_tag(s, p, tag),
        0 <= k < tag.len(),
    ensures
        s[p + k] == tag[k],
{
    assert(s.subrange(p, p + tag.len())[k] == s[p + k]);
}

proof fn lemma_run_end_is(s: Seq<u8>, p: int, e: int, c: Class)
    requires
        0 <= p <= e <= s.len(),
        forall|k: int| p <= k < e ==> in_class(c, s[k]),
        e < s.len() ==> !in_class(c, s[e]),
    ensures
        run_end(s, p, c) == e,
    decreases e - p,
{
    if p < e {
        lemma_run_end_is(s, p + 1, e, c);
    }
}

/// A run that ends inside `a` ends at the same place when more follows.
proof fn lemma_run_end_local(a: Seq<u8>, tail: Seq<u8>, p: int, c: Class)
    requires
        0 <= p <= a.len(),
        run_end(a, p, c) < a.len(),
    ensures
        run_end(a + tail, p, c) == run_end(a, p, c),
{
    lemma_run_end_bounds(a, p, c);
    lemma_run_end_is(a + tail, p, run_end(a, p, c), c);
}

proof fn lemma_tag_local(a: Seq<u8>, tail: Seq<u8>, p: int, tag: Seq<u8>)
    requires
        0 <= p,
        p + tag.len() <= a.len(),
    ensures
        has_tag(a + tail, p, tag) == has_tag(a, p, tag),
{
    assert((a + tail).subrange(p, p + tag.len()) =~= a.subrange(p, p + tag.len()));
}

/// The delimiter of math of the given width.
pub open spec fn delimiter(width: int) -> Seq<u8> {
    if width == 2 {
        seq![DOLLAR, DOLLAR]
    } else {
        seq![DOLLAR]
    }
}

proof fn lemma_reads_math(content: Seq<u8>, width: int, tail: Seq<u8>)
    requires
        width == 1 || width == 2,
        content.len() > 0,
        forall|i: int| 0 <= i < content.len() ==> content[i] != DOLLAR,
    ensures
        math_rule(delimiter(width) + content + delimiter(width) + tail, width) == Some(
            Reading {
                span: SpanModel {
                    typ: if width == 2 {
                        Type::BlockMath
                    } else {
                        Type::InlineMath
                    },
                    content,
                },
                len: content.len() + 2 * width,
            },
        ),
        width == 1 ==> math_rule(delimiter(1) + content + delimiter(1) + tail, 2) is None,
{
    let s = delimiter(width) + content + delimiter(width) + tail;
    let q = width + content.len();
    assert forall|k: int| width <= k < q implies in_class(Class::Content, s[k]) by {
        assert(s[k] == content[k - width]);
    }
    assert(s[q] == DOLLAR);
    lemma_run_end_is(s, width, q, Class::Content);
    assert(s.subrange(width, q) =~= content);
    assert(s[0] == DOLLAR);
    if width == 2 {
        assert(s[1] == DOLLAR);
        assert(s[q + 1] == DOLLAR);
    } else {
        assert(s[1] == content[0]);
    }
}

/// The name in an opening marker holds no blank and no closing brace.
proof fn lemma_begin_local(c: Seq<u8>, tail: Seq<u8>)
    requires
        begin_rule(c) is Some,
    ensures
        begin_rule(c + tail) == begin_rule(c),
        0 < begin_rule(c)->0.len <= c.len(),
        forall|k: int|
            0 <= k < begin_rule(c)->0.name.len() ==> (#[trigger] begin_rule(c)->0.name[k])
                != RBRACE,
        has_tag(c + tail, 0, "\\begin".spec_bytes()),
        (c + tail)[0] == BACKSLASH,
        (c + tail)[1] == 0x62,
{
    lemma_tag_bytes();
    let tag = "\\begin{".spec_bytes();
    let s = c + tail;
    let a = run_end(c, tag.len() as int, Class::Blank);
    lemma_run_end_bounds(c, tag.len() as int, Class::Blank);
    let b = run_end(c, a, Class::Name);
    lemma_run_end_bounds(c, a, Class::Name);
    let e = run_end(c, b, Class::Blank);
    lemma_run_end_bounds(c, b, Class::Blank);
    lemma_run_end_local(c, tail, tag.len() as int, Class::Blank);
    lemma_run_end_local(c, tail, a, Class::Name);
    lemma_run_end_local(c, tail, b, Class::Blank);
    lemma_tag_local(c, tail, 0, tag);
    assert(s.subrange(a, b) =~= c.subrange(a, b));
    assert(s[e] == c[e]);
    let name = c.subrange(a, b);
    assert forall|k: int| 0 <= k < name.len() implies (#[trigger] name[k]) != RBRACE by {
        assert(name[k] == c[a + k]);
    }
    lemma_tag_byte(c, 0, tag, 0);
    lemma_tag_byte(c, 0, tag, 1);
    assert(s.subrange(0, 6) =~= "\\begin".spec_bytes()) by {
        assert forall|k: int| 0 <= k < 6 implies s.subrange(0, 6)[k] == "\\begin".spec_bytes()[k] by {
            lemma_tag_byte(c, 0, tag, k);
        }
    }
}

proof fn lemma_close_brace(c: Seq<u8>, p: int, name: Seq<u8>)
    requires
        close_of(c, p, name) is Some,
    ensures
        0 <= p < close_of(c, p, name)->0 <= c.len(),
        c[close_of(c, p, name)->0 - 1] == RBRACE,
    decreases c.len() - p,
{
    if end_rule(c, p, name) is Some {
        lemma_tag_bytes();
        let tag = "\\end{".spec_bytes();
        let a = run_end(c, p + tag.len(), Class::Blank);
        lemma_run_end_bounds(c, p + tag.len(), Class::Blank);
        lemma_run_end_bounds(c, a + name.len(), Class::Blank);
    } else {
        lemma_close_brace(c, p + 1, name);
    }
}

proof fn lemma_end_local_some(c: Seq<u8>, tail: Seq<u8>, p: int, name: Seq<u8>)
    requires
        end_rule(c, p, name) is Some,
    ensures
        end_rule(c + tail, p, name) == end_rule(c, p, name),
{
    let tag = "\\end{".spec_bytes();
    let a = run_end(c, p + tag.len(), Class::Blank);
    lemma_run_end_bounds(c, p + tag.len(), Class::Blank);
    let b = a + name.len();
    let e = run_end(c, b, Class::Blank);
    lemma_run_end_bounds(c, b, Class::Blank);
    lemma_run_end_local(c, tail, p + tag.len(), Class::Blank);
    lemma_run_end_local(c, tail, b, Class::Blank);
    lemma_tag_local(c, tail, p, tag);
    lemma_tag_local(c, tail, a, name);
    assert((c + tail)[e] == c[e]);
}

proof fn lemma_end_local_none(c: Seq<u8>, tail: Seq<u8>, p: int, name: Seq<u8>)
    requires
        0 <= p < c.len(),
        end_rule(c, p, name) is None,
        c.last() == RBRACE,
        forall|k: int| 0 <= k < name.len() ==> (#[trigger] name[k]) != RBRACE,
    ensures
        end_rule(c + tail, p, name) is None,
{
    lemma_tag_bytes();
    let tag = "\\end{".spec_bytes();
    let s = c + tail;
    let n = c.len() as int;
    if end_rule(s, p, name) is Some {
        assert(s[n - 1] == RBRACE);
        if p + 5 > n {
            lemma_tag_byte(s, p, tag, n - 1 - p);
            assert(false);
        }
        lemma_tag_local(c, tail, p, tag);
        if p + 5 == n {
            lemma_tag_byte(c, p, tag, 4);
            assert(false);
        }
        let a = run_end(c, p + 5, Class::Blank);
        lemma_run_end_bounds(c, p + 5, Class::Blank);
        if a == n {
            assert(in_class(Class::Blank, c[n - 1]));
            assert(false);
        }
        lemma_run_end_local(c, tail, p + 5, Class::Blank);
        assert(has_tag(s, a, name));
        if a + name.len() > n {
            lemma_tag_byte(s, a, name, n - 1 - a);
            assert(false);
        }
        lemma_tag_local(c, tail, a, name);
        let b = a + name.len();
        if b == n {
            lemma_tag_byte(c, a, name, n - 1 - a);
            assert(false);
        }
        let e = run_end(c, b, Class::Blank);
        lemma_run_end_bounds(c, b, Class::Blank);
        if e == n {
            assert(in_class(Class::Blank, c[n - 1]));
            assert(false);
        }
        lemma_run_end_local(c, tail, b, Class::Blank);
        assert(s[e] == c[e]);
        assert(false);
    }
}

proof fn lemma_close_local(c: Seq<u8>, tail: Seq<u8>, p: int, name: Seq<u8>)
    requires
        close_of(c, p, name) == Some(c.len() as int),
        forall|k: int| 0 <= k < name.len() ==> (#[trigger] name[k]) != RBRACE,
    ensures
        close_of(c + tail, p, name) == Some(c.len() as int),
    decreases c.len() - p,
{
    lemma_close_brace(c, p, name);
    if end_rule(c, p, name) is Some {
        lemma_end_local_some(c, tail, p, name);
    } else {
        lemma_end_local_none(c, tail, p, name);
        lemma_close_local(c, tail, p + 1, name);
    }
}

proof fn lemma_reads_environ(c: Seq<u8>, tail: Seq<u8>)
    requires
        environ_rule(c) is Some,
        environ_rule(c)->0.len == c.len(),
    ensures
        environ_rule(c + tail) == Some(
            Reading { span: SpanModel { typ: Type::Environ, content: c }, len: c.len() as int },
        ),
        math_rule(c + tail, 2) is None,
        math_rule(c + tail, 1) is None,
        has_tag(c + tail, 0, "\\begin".spec_bytes()),
        (c + tail)[1] == 0x62,
        c.len() > 0,
{
    let open = begin_rule(c)->0;
    lemma_begin_local(c, tail);
    lemma_close_local(c, tail, open.len, open.name);
    assert((c + tail).subrange(0, c.len() as int) =~= c);
}

/// What may follow a span of text: nothing, a dollar sign, or `\begin`.
pub open spec fn ends_text(tail: Seq<u8>) -> bool {
    ||| tail.len() == 0
    ||| tail[0] == DOLLAR
    ||| (has_tag(tail, 0, "\\begin".spec_bytes()) && tail[1] == 0x62)
}

proof fn lemma_text_end_is(s: Seq<u8>, p: int, e: int)
    requires
        0 <= p <= e <= s.len(),
        forall|k: int| p <= k < e ==> text_unit(s, k) == 1,
        e < s.len() ==> text_unit(s, e) == 0,
    ensures
        text_end(s, p) == e,
    decreases e - p,
{
    if p < e {
        lemma_text_end_is(s, p + 1, e);
    }
}

proof fn lemma_reads_text(t: Seq<u8>, tail: Seq<u8>)
    requires
        t.len() > 0,
        forall|i: int| 0 <= i < t.len() ==> t[i] != DOLLAR && t[i] != BACKSLASH,
        ends_text(tail),
    ensures
        next_span(t + tail) == Some(
            Reading { span: SpanModel { typ: Type::Text, content: t }, len: t.len() as int },
        ),
{
    lemma_tag_bytes();
    let s = t + tail;
    let n = t.len() as int;
    assert(s[0] == t[0]);
    assert(environ_rule(s) is None) by {
        if has_tag(s, 0, "\\begin{".spec_bytes()) {
            lemma_tag_byte(s, 0, "\\begin{".spec_bytes(), 0);
        }
    }
    assert forall|k: int| 0 <= k < n implies text_unit(s, k) == 1 by {
        assert(s[k] == t[k]);
        if has_tag(s, k, "\\begin".spec_bytes()) {
            lemma_tag_byte(s, k, "\\begin".spec_bytes(), 0);
        }
        if has_tag(s, k, "\\end".spec_bytes()) {
            lemma_tag_byte(s, k, "\\end".spec_bytes(), 0);
        }
    }
    if n < s.len() {
        assert(s[n] == tail[0]);
        if tail[0] != DOLLAR {
            assert(s[n + 1] == tail[1]);
            assert(s.subrange(n, n + 6) =~= tail.subrange(0, 6));
            lemma_tag_byte(tail, 0, "\\begin".spec_bytes(), 0);
        }
    }
    lemma_text_end_is(s, 0, n);
    assert(s.subrange(0, n) =~= t);
}

/// A span as it is written in a well-formed document: text without dollar
/// signs and backslashes, math without dollar signs, neither of them empty,
/// or one complete environment.
pub open spec fn well_formed(span: SpanModel) -> bool {
    match span.typ {
        Type::Text => span.content.len() > 0 && forall|i: int|
            0 <= i < span.content.len() ==> span.content[i] != DOLLAR && span.content[i]
                != BACKSLASH,
        Type::InlineMath | Type::BlockMath => span.content.len() > 0 && forall|i: int|
            0 <= i < span.content.len() ==> span.content[i] != DOLLAR,
        Type::Environ => environ_rule(span.content) is Some && environ_rule(span.content)->0.len
            == span.content.len(),
    }
}

/// No two spans of text stand side by side: they would be one span.
pub open spec fn texts_apart(spans: Seq<SpanModel>) -> bool {
    forall|i: int, j: int|
        0 <= i && j == i + 1 && j < spans.len() ==> !((#[trigger] spans[i]).typ == Type::Text && (
        #[trigger] spans[j]).typ == Type::Text)
}

/// The spans of a well-formed document.
pub open spec fn balanced(spans: Seq<SpanModel>) -> bool {
    &&& forall|i: int| 0 <= i < spans.len() ==> well_formed(#[trigger] spans[i])
    &&& texts_apart(spans)
}

proof fn lemma_source_ends_text(span: SpanModel, tail: Seq<u8>)
    requires
        well_formed(span),
        span.typ != Type::Text,
    ensures
        ends_text(source_of(span) + tail),
{
    match span.typ {
        Type::Environ => {
            lemma_reads_environ(span.content, tail);
        },
        _ => {
            assert((source_of(span) + tail)[0] == DOLLAR);
        },
    }
}

proof fn lemma_reads_span(span: SpanModel, tail: Seq<u8>)
    requires
        well_formed(span),
        span.typ == Type::Text ==> ends_text(tail),
    ensures
        next_span(source_of(span) + tail) == Some(
            Reading { span, len: source_of(span).len() as int },
        ),
        source_of(span).len() > 0,
{
    match span.typ {
        Type::Text => {
            lemma_reads_text(span.content, tail);
        },
        Type::InlineMath => {
            lemma_reads_math(span.content, 1, tail);
        },
        Type::BlockMath => {
            lemma_reads_math(span.content, 2, tail);
        },
        Type::Environ => {
            lemma_reads_environ(span.content, tail);
        },
    }
}

proof fn lemma_rest_balanced(spans: Seq<SpanModel>)
    requires
        balanced(spans),
        spans.len() > 0,
    ensures
        balanced(spans.drop_first()),
{
    let rest = spans.drop_first();
    assert forall|i: int| 0 <= i < rest.len() implies well_formed(#[trigger] rest[i]) by {
        assert(rest[i] == spans[i + 1]);
    }
    assert forall|i: int, j: int| 0 <= i && j == i + 1 && j < rest.len() implies !((
    #[trigger] rest[i]).typ == Type::Text && (#[trigger] rest[j]).typ == Type::Text) by {
        assert(rest[i] == spans[i + 1]);
        assert(rest[j] == spans[j + 1]);
    }
}

/// After a span of text in a well-formed document comes what ends text.
proof fn lemma_after_text(spans: Seq<SpanModel>, tail: Seq<u8>)
    requires
        balanced(spans),
        spans.len() > 0,
        spans[0].typ == Type::Text,
        spans.last().typ == Type::Text ==> ends_text(tail),
    ensures
        ends_text(sources_of(spans.drop_first()) + tail),
{
    let rest = spans.drop_first();
    let after = sources_of(rest) + tail;
    if rest.len() > 0 {
        assert(spans[1] == rest[0]);
        assert(!(spans[0].typ == Type::Text && spans[1].typ == Type::Text));
        assert(well_formed(spans[1]));
        let rest2 = rest.drop_first();
        assert(after =~= source_of(rest[0]) + (sources_of(rest2) + tail));
        lemma_source_ends_text(rest[0], sources_of(rest2) + tail);
    } else {
        assert(spans.last() == spans[0]);
        assert(after =~= tail);
    }
}

/// Reading goes on after the span that the first rule reads.
proof fn lemma_read_on(s: Seq<u8>, span: SpanModel, n: int, after: Seq<u8>)
    requires
        next_span(s) == Some(Reading { span, len: n }),
        0 < n <= s.len(),
        s.subrange(n, s.len() as int) == after,
    ensures
        spans_of(s) == seq![span] + spans_of(after),
        unparsed(s) == unparsed(after),
{
}

/// The first span of a well-formed document is the one that is read first.
proof fn lemma_first_span(spans: Seq<SpanModel>, tail: Seq<u8>)
    requires
        balanced(spans),
        spans.len() > 0,
        spans.last().typ == Type::Text ==> ends_text(tail),
    ensures
        ({
            let s = sources_of(spans) + tail;
            let n = source_of(spans[0]).len() as int;
            &&& next_span(s) == Some(Reading { span: spans[0], len: n })
            &&& 0 < n <= s.len()
            &&& s.subrange(n, s.len() as int) == sources_of(spans.drop_first()) + tail
        }),
{
    let first = spans[0];
    let after = sources_of(spans.drop_first()) + tail;
    let s = source_of(first) + after;
    assert(sources_of(spans) + tail =~= s);
    if first.typ == Type::Text {
        lemma_after_text(spans, tail);
    }
    assert(well_formed(spans[0]));
    lemma_reads_span(first, after);
    assert(s.subrange(source_of(first).len() as int, s.len() as int) =~= after);
}

proof fn lemma_last_stays(spans: Seq<SpanModel>, tail: Seq<u8>)
    requires
        spans.len() > 0,
        spans.last().typ == Type::Text ==> ends_text(tail),
    ensures
        spans.drop_first().len() > 0 && spans.drop_first().last().typ == Type::Text ==> ends_text(
            tail,
        ),
{
    let rest = spans.drop_first();
    if rest.len() > 0 {
        assert(rest.last() == spans.last());
    }
}

/// The spans of a well-formed document are read back as they were written,
/// and reading goes on with what follows them.
pub proof fn lemma_reads_spans(spans: Seq<SpanModel>, tail: Seq<u8>)
    requires
        balanced(spans),
        spans.len() > 0 && spans.last().typ == Type::Text ==> ends_text(tail),
    ensures
        spans_of(sources_of(spans) + tail) == spans + spans_of(tail),
        unparsed(sources_of(spans) + tail) == unparsed(tail),
    decreases spans.len(),
{
    if spans.len() == 0 {
        assert(sources_of(spans) + tail =~= tail);
        assert(spans + spans_of(tail) =~= spans_of(tail));
    } else {
        let rest = spans.drop_first();
        let s = sources_of(spans) + tail;
        lemma_first_span(spans, tail);
        lemma_rest_balanced(spans);
        lemma_last_stays(spans, tail);
        lemma_reads_spans(rest, tail);
        lemma_read_on(s, spans[0], source_of(spans[0]).len() as int, sources_of(rest) + tail);
        assert(seq![spans[0]] + (rest + spans_of(tail)) =~= spans + spans_of(tail));
    }
}

/// A well-formed document is read to its end, and read back as the spans it
/// was written from.
///
/// Write any sequence of well-formed spans one after the other: text, math
/// between one or two dollar signs on each side, complete environments. The
/// parser takes all of it and gives these spans, in this order.
pub proof fn lemma_balanced_input_parses(spans: Seq<SpanModel>)
    requires
        balanced(spans),
    ensures
        unparsed(sources_of(spans)).len() == 0,
        spans_of(sources_of(spans)) == spans,
{
    let empty = Seq::<u8>::empty();
    lemma_reads_spans(spans, empty);
    assert(sources_of(spans) + empty =~= sources_of(spans));
    assert(spans + spans_of(empty) =~= spans);
}

/// A `\begin` that opens no complete environment is rejected.
///
/// After any well-formed spans, let a `\begin` follow for which the
/// environment rule gives nothing: its name is not recognised, or no closing
/// marker for it follows. Then the parser stops right there, with all that
/// follows left over.
pub proof fn lemma_unterminated_environment_rejected(spans: Seq<SpanModel>, tail: Seq<u8>)
    requires
        balanced(spans),
        has_tag(tail, 0, "\\begin".spec_bytes()),
        environ_rule(tail) is None,
    ensures
        unparsed(sources_of(spans) + tail) == tail,
        tail.len() > 0,
        spans_of(sources_of(spans) + tail) == spans,
{
    lemma_tag_bytes();
    let tag = "\\begin".spec_bytes();
    lemma_tag_byte(tail, 0, tag, 0);
    lemma_tag_byte(tail, 0, tag, 1);
    lemma_reads_spans(spans, tail);
    assert(text_unit(tail, 0) == 0);
    assert(next_span(tail) is None);
    assert(spans + spans_of(tail) =~= spans);
}

/// The number of dollar signs in `s`.
pub open spec fn count_dollars(s: Seq<u8>) -> nat
    decreases s.len(),
{
    if s.len() == 0 {
        0
    } else {
        count_dollars(s.drop_last()) + if s.last() == DOLLAR {
            1nat
        } else {
            0nat
        }
    }
}

/// Every dollar sign of `s` delimits math: none follows a backslash, and no
/// `\begin` opens an environment that could hold one.
pub open spec fn dollars_delimit(s: Seq<u8>) -> bool {
    &&& forall|p: int| 0 <= p < s.len() - 1 ==> !(#[trigger] s[p] == BACKSLASH && s[p + 1] == DOLLAR)
    &&& forall|p: int| !has_tag(s, p, "\\begin".spec_bytes())
}

proof fn lemma_count_concat(a: Seq<u8>, b: Seq<u8>)
    ensures
        count_dollars(a + b) == count_dollars(a) + count_dollars(b),
    decreases b.len(),
{
    if b.len() == 0 {
        assert(a + b =~= a);
    } else {
        lemma_count_concat(a, b.drop_last());
        assert((a + b).drop_last() =~= a + b.drop_last());
    }
}

proof fn lemma_count_none(s: Seq<u8>)
    requires
        forall|i: int| 0 <= i < s.len() ==> s[i] != DOLLAR,
    ensures
        count_dollars(s) == 0,
    decreases s.len(),
{
    if s.len() > 0 {
        lemma_count_none(s.drop_last());
    }
}

proof fn lemma_count_delimiter(width: int)
    requires
        width == 1 || width == 2,
    ensures
        count_dollars(delimiter(width)) == width,
{
    let one = seq![DOLLAR];
    assert(one.drop_last() =~= Seq::<u8>::empty());
    assert(one.last() == DOLLAR);
    assert(count_dollars(one.drop_last()) == 0);
    assert(count_dollars(one) == 1);
    if width == 2 {
        let two = seq![DOLLAR, DOLLAR];
        assert(two.drop_last() =~= one);
        assert(two.last() == DOLLAR);
        assert(count_dollars(two) == 2);
    }
}

proof fn lemma_text_has_no_dollar(s: Seq<u8>, p: int)
    requires
        0 <= p <= s.len(),
        forall|q: int| 0 <= q < s.len() - 1 ==> !(#[trigger] s[q] == BACKSLASH && s[q + 1] == DOLLAR),
    ensures
        p <= text_end(s, p) <= s.len(),
        forall|k: int| p <= k < text_end(s, p) ==> s[k] != DOLLAR,
    decreases s.len() - p,
{
    if p < s.len() && text_unit(s, p) > 0 {
        lemma_text_has_no_dollar(s, p + text_unit(s, p));
    }
}

proof fn lemma_suffix_delimits(s: Seq<u8>, n: int)
    requires
        dollars_delimit(s),
        0 <= n <= s.len(),
    ensures
        dollars_delimit(s.subrange(n, s.len() as int)),
{
    let rest = s.subrange(n, s.len() as int);
    let tag = "\\begin".spec_bytes();
    assert forall|p: int| 0 <= p < rest.len() - 1 implies !(#[trigger] rest[p] == BACKSLASH
        && rest[p + 1] == DOLLAR) by {
        assert(rest[p] == s[n + p] && rest[p + 1] == s[n + p + 1]);
        assert(!(s[n + p] == BACKSLASH && s[n + p + 1] == DOLLAR));
    }
    assert forall|p: int| !has_tag(rest, p, tag) by {
        if has_tag(rest, p, tag) {
            assert(rest.subrange(p, p + tag.len()) =~= s.subrange(n + p, n + p + tag.len()));
            assert(has_tag(s, n + p, tag));
        }
    }
}

proof fn lemma_math_dollars(s: Seq<u8>, width: int)
    requires
        width == 1 || width == 2,
        math_rule(s, width) is Some,
    ensures
        count_dollars(s.subrange(0, math_rule(s, width)->0.len)) == 2 * width,
{
    let q = run_end(s, width, Class::Content);
    lemma_run_end_bounds(s, width, Class::Content);
    let head = s.subrange(0, q + width);
    let content = s.subrange(width, q);
    assert(head =~= delimiter(width) + content + delimiter(width));
    lemma_count_concat(delimiter(width) + content, delimiter(width));
    lemma_count_concat(delimiter(width), content);
    lemma_count_none(content);
    lemma_count_delimiter(width);
}

proof fn lemma_text_dollars(s: Seq<u8>)
    requires
        dollars_delimit(s),
    ensures
        count_dollars(s.subrange(0, text_end(s, 0))) == 0,
{
    lemma_text_has_no_dollar(s, 0);
    lemma_count_none(s.subrange(0, text_end(s, 0)));
}

proof fn lemma_no_environ(s: Seq<u8>)
    requires
        dollars_delimit(s),
    ensures
        environ_rule(s) is None,
{
    if environ_rule(s) is Some {
        lemma_begin_local(s, Seq::<u8>::empty());
        assert(s + Seq::<u8>::empty() =~= s);
        assert(has_tag(s, 0, "\\begin".spec_bytes()));
    }
}

proof fn lemma_head_dollars(s: Seq<u8>)
    requires
        dollars_delimit(s),
        advances(s, next_span(s)),
    ensures
        count_dollars(s.subrange(0, next_span(s)->0.len)) % 2 == 0,
{
    lemma_no_environ(s);
    if math_rule(s, 2) is Some {
        lemma_math_dollars(s, 2);
    } else if math_rule(s, 1) is Some {
        lemma_math_dollars(s, 1);
    } else {
        lemma_text_dollars(s);
    }
}

proof fn lemma_dollars_in_pairs(s: Seq<u8>)
    requires
        dollars_delimit(s),
    ensures
        count_dollars(s) % 2 == count_dollars(unparsed(s)) % 2,
    decreases s.len(),
{
    let r = next_span(s);
    if advances(s, r) {
        let n = r->0.len;
        let head = s.subrange(0, n);
        let rest = s.subrange(n, s.len() as int);
        assert(head + rest =~= s);
        lemma_count_concat(head, rest);
        lemma_suffix_delimits(s, n);
        lemma_dollars_in_pairs(rest);
        lemma_head_dollars(s);
    }
}

/// An odd number of dollar signs is rejected.
///
/// This holds of the texts in which every dollar sign delimits math, which
/// are those without a dollar sign after a backslash and without `\begin`.
pub proof fn lemma_odd_dollars_rejected(s: Seq<u8>)
    requires
        dollars_delimit(s),
        count_dollars(s) % 2 == 1,
    ensures
        unparsed(s).len() > 0,
{
    lemma_dollars_in_pairs(s);
}

} // verus!
