//! Byte-level helpers shared by the parser and the container builder:
//! tag matching, runs of a byte class, and cutting a `&str` at offsets that
//! are known to be character boundaries.
use vstd::prelude::*;
use vstd::string::*;
use vstd::utf8::*;

verus! {

pub const DOLLAR: u8 = 0x24;

pub const BACKSLASH: u8 = 0x5c;

pub const TILDE: u8 = 0x7e;

pub const LBRACE: u8 = 0x7b;

pub const RBRACE: u8 = 0x7d;

pub const SPACE: u8 = 0x20;

pub const TAB: u8 = 0x09;

/// `tag` stands in `s` at offset `p`.
pub open spec fn has_tag(s: Seq<u8>, p: int, tag: Seq<u8>) -> bool {
    &&& 0 <= p
    &&& p + tag.len() <= s.len()
    &&& s.subrange(p, p + tag.len()) == tag
}

/// Tests whether `tag` stands in `s` at offset `p`.
pub fn starts_with_at(s: &[u8], p: usize, tag: &[u8]) -> (found: bool)
    ensures
        found == has_tag(s@, p as int, tag@),
{
    if p > s.len() || tag.len() > s.len() - p {
        return false;
    }
    let mut i: usize = 0;
    while i < tag.len()
        invariant
            p + tag.len() <= s.len(),
            i <= tag.len(),
            forall|k: int| 0 <= k < i ==> s@[p + k] == tag@[k],
        decreases tag.len() - i,
    {
        if s[p + i] != tag[i] {
            assert(s@.subrange(p as int, p + tag@.len())[i as int] == s@[p + i]);
            return false;
        }
        i += 1;
    }
    assert(s@.subrange(p as int, p + tag@.len()) =~= tag@);
    true
}

/// The classes of bytes that the grammar reads in runs.
#[derive(Clone, Copy, Debug)]
pub enum Class {
    /// A space or a tab.
    Blank,
    /// Anything but a dollar sign: what math content is made of.
    Content,
    /// Anything but a blank or a closing brace: what an environment name is
    /// made of.
    Name,
}

pub open spec fn is_blank(b: u8) -> bool {
    b == SPACE || b == TAB
}

pub open spec fn in_class(c: Class, b: u8) -> bool {
    match c {
        Class::Blank => is_blank(b),
        Class::Content => b != DOLLAR,
        Class::Name => !is_blank(b) && b != RBRACE,
    }
}

/// The end of the longest run of bytes of class `c` that starts at `p`.
pub open spec fn run_end(s: Seq<u8>, p: int, c: Class) -> int
    decreases s.len() - p,
{
    if 0 <= p < s.len() && in_class(c, s[p]) {
        run_end(s, p + 1, c)
    } else {
        p
    }
}

pub proof fn lemma_run_end_bounds(s: Seq<u8>, p: int, c: Class)
    requires
        0 <= p <= s.len(),
    ensures
        p <= run_end(s, p, c) <= s.len(),
        forall|k: int| p <= k < run_end(s, p, c) ==> in_class(c, s[k]),
        run_end(s, p, c) < s.len() ==> !in_class(c, s[run_end(s, p, c)]),
    decreases s.len() - p,
{
    if p < s.len() && in_class(c, s[p]) {
        lemma_run_end_bounds(s, p + 1, c);
    }
}

pub fn class_has(c: Class, b: u8) -> (r: bool)
    ensures
        r == in_class(c, b),
{
    match c {
        Class::Blank => b == SPACE || b == TAB,
        Class::Content => b != DOLLAR,
        Class::Name => b != SPACE && b != TAB && b != RBRACE,
    }
}

/// Walks over the run of bytes of class `c` that starts at `p`.
pub fn scan_run(s: &[u8], p: usize, c: Class) -> (e: usize)
    requires
        p <= s.len(),
    ensures
        e == run_end(s@, p as int, c),
        p <= e <= s.len(),
{
    let mut i: usize = p;
    while i < s.len() && class_has(c, s[i])
        invariant
            p <= i <= s.len(),
            run_end(s@, p as int, c) == run_end(s@, i as int, c),
        decreases s.len() - i,
    {
        i += 1;
    }
    i
}

/// An offset at which a string can be cut without looking at whole
/// characters: an end of the string, or a place next to an ASCII byte.
pub open spec fn cut_point(b: Seq<u8>, i: int) -> bool {
    &&& 0 <= i <= b.len()
    &&& (i == 0 || i == b.len() || b[i] < 0x80 || b[i - 1] < 0x80)
}

/// In valid UTF-8 every cut point is a character boundary.
pub proof fn lemma_cut_point_is_boundary(b: Seq<u8>, i: int)
    requires
        valid_utf8(b),
        cut_point(b, i),
    ensures
        is_char_boundary(b, i),
{
    is_char_boundary_start_end_of_seq(b);
    if i == 0 || i == b.len() {
    } else if b[i] < 0x80 {
        is_char_boundary_iff_not_is_continuation_byte(b, i);
    } else {
        is_char_boundary_iff_not_is_continuation_byte(b, i - 1);
        valid_utf8_split(b, i - 1);
        let tail = b.subrange(i - 1, b.len() as int);
        assert(tail[0] == b[i - 1]);
        assert(valid_first_scalar(tail));
        assert(length_of_first_scalar(tail) == 1);
        let after = pop_first_scalar(tail);
        assert(after =~= b.subrange(i, b.len() as int));
        assert(valid_utf8(after));
        assert(after[0] == b[i]);
        assert(valid_first_scalar(after));
        is_char_boundary_iff_not_is_continuation_byte(b, i);
    }
}

/// The part of `s` between two cut points.
pub fn substr<'a>(s: &'a str, from: usize, to: usize) -> (r: &'a str)
    requires
        from <= to,
        cut_point(s.spec_bytes(), from as int),
        cut_point(s.spec_bytes(), to as int),
    ensures
        r.spec_bytes() == s.spec_bytes().subrange(from as int, to as int),
{
    let ghost b = s.spec_bytes();
    proof {
        encode_utf8_valid_utf8(s@);
        lemma_cut_point_is_boundary(b, to as int);
        lemma_cut_point_is_boundary(b, from as int);
        valid_utf8_split(b, to as int);
    }
    let (head, _) = s.split_at(to);
    proof {
        let h = head.spec_bytes();
        assert(h == b.subrange(0, to as int));
        is_char_boundary_start_end_of_seq(h);
        if from < to {
            is_char_boundary_iff_not_is_continuation_byte(b, from as int);
            assert(h[from as int] == b[from as int]);
            is_char_boundary_iff_not_is_continuation_byte(h, from as int);
        }
    }
    let (_, r) = head.split_at(from);
    proof {
        assert(r.spec_bytes() =~= b.subrange(from as int, to as int));
    }
    r
}


/// `String::from_utf8` of std, with the error dropped: the bytes become a
/// string exactly when they are valid UTF-8, and the string then encodes to
/// the same bytes.
#[verifier::external_body]
pub(crate) fn string_from_utf8(bytes: Vec<u8>) -> (r: Option<String>)
    ensures
        r is Some <==> valid_utf8(bytes@),
        r matches Some(s) ==> encode_utf8(s@) == bytes@,
{
    String::from_utf8(bytes).ok()
}

/// A sequence of ASCII bytes is valid UTF-8.
pub proof fn lemma_ascii_is_utf8(b: Seq<u8>)
    requires
        forall|i: int| 0 <= i < b.len() ==> b[i] < 0x80,
    ensures
        valid_utf8(b),
{
    assert(b.subrange(0, 0) =~= Seq::<u8>::empty());
    assert(partial_valid_utf8(b, 0));
    assert forall|i: int| 0 <= 0 <= i < b.len() <= b.len() implies #[trigger] is_leading_byte_width_1(
        b[i],
    ) by {}
    partial_valid_utf8_extend_ascii_block(b, 0, b.len() as int);
    assert(b.subrange(0, b.len() as int) =~= b);
}

} // verus!
