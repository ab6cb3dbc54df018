//! The clipboard container: a header of four ten-digit byte offsets, an HTML
//! skeleton, and the fragment between two marker comments.
//!
//! The offsets point into the finished buffer, so they are counted in bytes
//! of UTF-8, after the fragment has been put in.
use std::borrow::Cow;
use std::ops::Range;
use vstd::prelude::*;
use vstd::string::*;
use vstd::utf8::*;
use crate::bytes::{has_tag, lemma_ascii_is_utf8, starts_with_at, string_from_utf8};

verus! {

/// What stands before the fragment: the header with its four fields still
/// zero, and the opening of the document up to the start marker.
pub const TEMPLATE_PREFIX: &'static str =
    "Version:1.0\nStartHTML:0000000000\nEndHTML:0000000000\nStartFragment:0000000000\nEndFragment:0000000000\n<html xmlns:v=\"urn:schemas-microsoft-com:vml\"\nxmlns:o=\"urn:schemas-microsoft-com:office:office\"\nxmlns:w=\"urn:schemas-microsoft-com:office:word\"\nxmlns:m=\"http://schemas.microsoft.com/office/2004/12/omml\"\nxmlns=\"http://www.w3.org/TR/REC-html40\">\n<head></head>\n<body>\n<!--StartFragment-->";

/// What stands after the fragment: the end marker and the closing of the
/// document.
pub const TEMPLATE_SUFFIX: &'static str = "<!--EndFragment-->\n</body>\n</html>";

/// The width of an offset field, in digits.
pub const FIELD_WIDTH: usize = 10;

/// The least value that an offset field cannot hold.
pub const FIELD_LIMIT: u64 = 10_000_000_000;

pub open spec fn prefix() -> Seq<u8> {
    TEMPLATE_PREFIX.spec_bytes()
}

pub open spec fn suffix() -> Seq<u8> {
    TEMPLATE_SUFFIX.spec_bytes()
}

/// `needle` stands somewhere in `s`.
pub open spec fn occurs(s: Seq<u8>, needle: Seq<u8>) -> bool {
    exists|i: int| has_tag(s, i, needle)
}

/// `i` is the first offset at which `needle` stands in `s`.
pub open spec fn first_at(s: Seq<u8>, needle: Seq<u8>, i: int) -> bool {
    &&& has_tag(s, i, needle)
    &&& forall|j: int| 0 <= j < i ==> !has_tag(s, j, needle)
}

/// The first offset at which `needle` stands in `s`.
pub fn find(s: &str, needle: &str) -> (idx: usize)
    requires
        occurs(s.spec_bytes(), needle.spec_bytes()),
    ensures
        first_at(s.spec_bytes(), needle.spec_bytes(), idx as int),
{
    let s = s.as_bytes();
    let needle = needle.as_bytes();
    let mut idx: usize = 0;
    while !starts_with_at(s, idx, needle)
        invariant
            idx <= s.len(),
            occurs(s@, needle@),
            forall|j: int| 0 <= j < idx ==> !has_tag(s@, j, needle@),
        decreases s.len() - idx,
    {
        proof {
            let i = choose|i: int| has_tag(s@, i, needle@);
            assert(i > idx);
        }
        idx += 1;
    }
    idx
}

/// Ten to the power `n`.
pub open spec fn pow10(n: nat) -> nat
    decreases n,
{
    if n == 0 {
        1
    } else {
        10 * pow10((n - 1) as nat)
    }
}

/// The ASCII digit for `d`.
pub open spec fn digit(d: nat) -> u8 {
    (0x30 + d % 10) as u8
}

/// `x` in decimal, in exactly `width` digits, with zeros on the left.
pub open spec fn decimal(x: nat, width: nat) -> Seq<u8>
    decreases width,
{
    if width == 0 {
        seq![]
    } else {
        decimal(x / 10, (width - 1) as nat).push(digit(x))
    }
}

/// The number that a sequence of ASCII digits spells.
pub open spec fn read_decimal(digits: Seq<u8>) -> nat
    decreases digits.len(),
{
    if digits.len() == 0 {
        0
    } else {
        (read_decimal(digits.drop_last()) * 10 + (digits.last() - 0x30)) as nat
    }
}

/// `field` with the digits of `x` written over its right end, one for each
/// digit that `x` has; nothing is written for zero.
pub open spec fn put_digits(field: Seq<u8>, x: nat) -> Seq<u8>
    decreases field.len(),
{
    if x == 0 || field.len() == 0 {
        field
    } else {
        put_digits(field.drop_last(), x / 10).push(digit(x))
    }
}

/// Every byte of `field` is the digit zero.
pub open spec fn zero_filled(field: Seq<u8>) -> bool {
    forall|i: int| 0 <= i < field.len() ==> field[i] == 0x30
}

/// Writing a number that fits over a zero-filled field gives the number in
/// decimal at the field's width.
pub proof fn lemma_put_digits_on_zeros(field: Seq<u8>, x: nat)
    requires
        zero_filled(field),
        x < pow10(field.len()),
    ensures
        put_digits(field, x) == decimal(x, field.len()),
    decreases field.len(),
{
    if field.len() == 0 {
        assert(field =~= seq![]);
    } else {
        let rest = field.drop_last();
        assert(zero_filled(rest));
        if x == 0 {
            lemma_put_digits_on_zeros(rest, 0);
            assert(put_digits(rest, 0) == rest);
            assert(field =~= rest.push(digit(0)));
        } else {
            assert(x / 10 < pow10(rest.len())) by (nonlinear_arith)
                requires
                    x < 10 * pow10(rest.len()),
            ;
            lemma_put_digits_on_zeros(rest, x / 10);
        }
    }
}

/// A number that fits reads back from its decimal form, which is made of
/// ASCII digits.
pub proof fn lemma_read_decimal(x: nat, width: nat)
    requires
        x < pow10(width),
    ensures
        decimal(x, width).len() == width,
        read_decimal(decimal(x, width)) == x,
        forall|i: int| 0 <= i < width ==> 0x30 <= #[trigger] decimal(x, width)[i] <= 0x39,
    decreases width,
{
    if width > 0 {
        let rest = decimal(x / 10, (width - 1) as nat);
        assert(x / 10 < pow10((width - 1) as nat)) by (nonlinear_arith)
            requires
                x < 10 * pow10((width - 1) as nat),
        ;
        lemma_read_decimal(x / 10, (width - 1) as nat);
        assert(rest.push(digit(x)).drop_last() =~= rest);
        assert(digit(x) - 0x30 == x % 10);
    }
}

/// Writes `x` in decimal over the right end of `buf` and leaves the bytes
/// to the left of its digits as they are.
pub fn usize_to_str(buf: &mut [u8], x: usize)
    requires
        x < pow10(old(buf)@.len()),
    ensures
        final(buf)@ == put_digits(old(buf)@, x as nat),
{
    let n = buf.len();
    let mut i: usize = n;
    let mut x: usize = x;
    let ghost before = buf@;
    let ghost x0 = x as nat;
    proof {
        assert(before.subrange(0, n as int) =~= before);
        assert(before.subrange(0, n as int) + buf@.subrange(n as int, n as int) =~= before);
    }
    while x > 0 && i > 0
        invariant
            i <= n,
            buf@.len() == n,
            before.len() == n,
            buf@.subrange(0, i as int) == before.subrange(0, i as int),
            put_digits(before, x0) == put_digits(before.subrange(0, i as int), x as nat)
                + buf@.subrange(i as int, n as int),
        decreases i,
    {
        let r: usize = x % 10;
        let ghost prev = buf@;
        let ghost head = before.subrange(0, i as int);
        i -= 1;
        buf[i] = (r + 0x30) as u8;
        proof {
            assert(head.drop_last() =~= before.subrange(0, i as int));
            assert(buf@[i as int] == digit(x as nat));
            assert(buf@.subrange(i as int + 1, n as int) =~= prev.subrange(i as int + 1, n as int));
            assert(put_digits(head.drop_last(), x as nat / 10).push(digit(x as nat)) + prev.subrange(
                i as int + 1,
                n as int,
            ) =~= put_digits(head.drop_last(), x as nat / 10) + buf@.subrange(i as int, n as int));
            assert(buf@.subrange(0, i as int) =~= before.subrange(0, i as int));
        }
        x = x / 10;
    }
    proof {
        assert(before.subrange(0, i as int) + buf@.subrange(i as int, n as int) =~= buf@);
    }
}


/// Where the templates keep what the builder needs: the four offset fields
/// of the header, and the markers that the offsets point at.
pub struct Meta {
    /// The field after `StartHTML:`.
    pub start_html: Range<usize>,
    /// The field after `EndHTML:`.
    pub end_html: Range<usize>,
    /// The field after `StartFragment:`.
    pub start_fragment: Range<usize>,
    /// The field after `EndFragment:`.
    pub end_fragment: Range<usize>,
    /// Where `<html` opens, in the prefix.
    pub html_open_in_prefix: usize,
    /// The offset just past `</html>`, in the suffix.
    pub html_close_in_suffix: usize,
    /// Where the start marker of the fragment stands, in the prefix.
    pub start_fragment_in_prefix: usize,
    /// The offset just past the end marker of the fragment, in the suffix.
    pub end_fragment_in_suffix: usize,
}

/// The layout of the two templates.
pub open spec fn layout() -> Meta {
    Meta {
        start_html: Range { start: 22, end: 32 },
        end_html: Range { start: 41, end: 51 },
        start_fragment: Range { start: 66, end: 76 },
        end_fragment: Range { start: 89, end: 99 },
        html_open_in_prefix: 100,
        html_close_in_suffix: 34,
        start_fragment_in_prefix: 365,
        end_fragment_in_suffix: 18,
    }
}

/// `label`, with the colon after it, stands right before the zero-filled
/// field at `field` in the prefix, and nowhere earlier.
pub open spec fn labelled(label: Seq<u8>, field: Range<usize>) -> bool {
    &&& first_at(prefix(), label, field.start - label.len() - 1)
    &&& prefix()[field.start - 1] == 0x3a
    &&& field.end == field.start + FIELD_WIDTH
    &&& field.end <= prefix().len()
    &&& zero_filled(prefix().subrange(field.start as int, field.end as int))
}

/// The numbers of [`layout`] are the places of the labels and markers in
/// the templates: each field follows its label, and each marker stands
/// where its offset says, for the first time.
pub proof fn lemma_layout()
    ensures
        prefix().len() == 385,
        suffix().len() == 34,
        forall|i: int| 0 <= i < prefix().len() ==> prefix()[i] < 0x80,
        labelled("StartHTML".spec_bytes(), layout().start_html),
        labelled("EndHTML".spec_bytes(), layout().end_html),
        labelled("StartFragment".spec_bytes(), layout().start_fragment),
        labelled("EndFragment".spec_bytes(), layout().end_fragment),
        "StartHTML".spec_bytes().len() == 9,
        "EndHTML".spec_bytes().len() == 7,
        "StartFragment".spec_bytes().len() == 13,
        "EndFragment".spec_bytes().len() == 11,
        first_at(prefix(), "<html".spec_bytes(), layout().html_open_in_prefix as int),
        first_at(
            prefix(),
            "<!--StartFragment-->".spec_bytes(),
            layout().start_fragment_in_prefix as int,
        ),
        "</html>".spec_bytes().len() == 7,
        first_at(suffix(), "</html>".spec_bytes(), layout().html_close_in_suffix - 7),
        "<!--EndFragment-->".spec_bytes().len() == 18,
        first_at(suffix(), "<!--EndFragment-->".spec_bytes(), layout().end_fragment_in_suffix - 18),
        prefix().len() == layout().start_fragment_in_prefix + 20,
        suffix().len() == layout().html_close_in_suffix,
{
    reveal_strlit(
        "Version:1.0\nStartHTML:0000000000\nEndHTML:0000000000\nStartFragment:0000000000\nEndFragment:0000000000\n<html xmlns:v=\"urn:schemas-microsoft-com:vml\"\nxmlns:o=\"urn:schemas-microsoft-com:office:office\"\nxmlns:w=\"urn:schemas-microsoft-com:office:word\"\nxmlns:m=\"http://schemas.microsoft.com/office/2004/12/omml\"\nxmlns=\"http://www.w3.org/TR/REC-html40\">\n<head></head>\n<body>\n<!--StartFragment-->",
    );
    reveal_strlit("<!--EndFragment-->\n</body>\n</html>");
    reveal_strlit("StartHTML");
    reveal_strlit("EndHTML");
    reveal_strlit("StartFragment");
    reveal_strlit("EndFragment");
    reveal_strlit("<html");
    reveal_strlit("<!--StartFragment-->");
    reveal_strlit("</html>");
    reveal_strlit("<!--EndFragment-->");
    is_ascii_spec_bytes(TEMPLATE_PREFIX);
    is_ascii_spec_bytes(TEMPLATE_SUFFIX);
    is_ascii_spec_bytes("StartHTML");
    is_ascii_spec_bytes("EndHTML");
    is_ascii_spec_bytes("StartFragment");
    is_ascii_spec_bytes("EndFragment");
    is_ascii_spec_bytes("<html");
    is_ascii_spec_bytes("<!--StartFragment-->");
    is_ascii_spec_bytes("</html>");
    is_ascii_spec_bytes("<!--EndFragment-->");
    let p = prefix();
    let s = suffix();
    lemma_first_at(p, "StartHTML".spec_bytes(), 12);
    lemma_first_at(p, "EndHTML".spec_bytes(), 33);
    lemma_first_at(p, "StartFragment".spec_bytes(), 52);
    lemma_first_at(p, "EndFragment".spec_bytes(), 77);
    lemma_first_at(p, "<html".spec_bytes(), 100);
    lemma_first_at(p, "<!--StartFragment-->".spec_bytes(), 365);
    lemma_first_at(s, "</html>".spec_bytes(), 27);
    lemma_first_at(s, "<!--EndFragment-->".spec_bytes(), 0);
}

/// `needle` stands at `i` in `s` for the first time if it stands there and
/// every earlier place differs from it within its first six bytes.
proof fn lemma_first_at(s: Seq<u8>, needle: Seq<u8>, i: int)
    requires
        0 <= i,
        i + needle.len() <= s.len(),
        needle.len() >= 5,
        forall|k: int| 0 <= k < needle.len() ==> s[i + k] == needle[k],
        forall|j: int|
            0 <= j < i ==> #[trigger] s[j] != needle[0] || s[j + 1] != needle[1] || s[j + 2] != needle[2]
                || s[j + 3] != needle[3] || s[j + 4] != needle[4] || (needle.len() > 5 && s[j + 5]
                != needle[5]),
    ensures
        first_at(s, needle, i),
{
    assert(s.subrange(i, i + needle.len()) =~= needle);
    assert forall|j: int| 0 <= j < i implies !has_tag(s, j, needle) by {
        if has_tag(s, j, needle) {
            let w = s.subrange(j, j + needle.len());
            assert(w[0] == s[j] && w[1] == s[j + 1] && w[2] == s[j + 2] && w[3] == s[j + 3] && w[4]
                == s[j + 4]);
            if needle.len() > 5 {
                assert(w[5] == s[j + 5]);
            }
        }
    }
}

impl Meta {
    /// The layout is the one of the templates.
    pub open spec fn wf(&self) -> bool {
        *self == layout()
    }

    /// The field that follows the label `name` and its colon in the prefix.
    pub fn range_for(name: &str) -> (field: Range<usize>)
        requires
            occurs(prefix(), name.spec_bytes()),
        ensures
            first_at(prefix(), name.spec_bytes(), field.start - name.spec_bytes().len() - 1),
            field.end == field.start + FIELD_WIDTH,
    {
        proof {
            lemma_layout();
        }
        let idx = find(TEMPLATE_PREFIX, name) + name.as_bytes().len() + 1;
        Range { start: idx, end: idx + FIELD_WIDTH }
    }

    /// Locates the fields and the markers in the templates.
    pub fn get() -> (meta: Meta)
        ensures
            meta.wf(),
    {
        proof {
            lemma_layout();
        }
        Meta {
            start_html: Self::range_for("StartHTML"),
            end_html: Self::range_for("EndHTML"),
            start_fragment: Self::range_for("StartFragment"),
            end_fragment: Self::range_for("EndFragment"),
            html_open_in_prefix: find(TEMPLATE_PREFIX, "<html"),
            html_close_in_suffix: find(TEMPLATE_SUFFIX, "</html>") + "</html>".as_bytes().len(),
            start_fragment_in_prefix: find(TEMPLATE_PREFIX, "<!--StartFragment-->"),
            end_fragment_in_suffix: find(TEMPLATE_SUFFIX, "<!--EndFragment-->")
                + "<!--EndFragment-->".as_bytes().len(),
        }
    }
}


/// `s` with the ten bytes at `at` replaced by `x` in decimal.
pub open spec fn with_field(s: Seq<u8>, at: int, x: nat) -> Seq<u8> {
    s.subrange(0, at) + decimal(x, FIELD_WIDTH as nat) + s.subrange(
        at + FIELD_WIDTH,
        s.len() as int,
    )
}

/// The header and the opening of the document, for a fragment of `n` bytes:
/// the prefix with its four fields filled in.
pub open spec fn header(n: nat) -> Seq<u8> {
    let m = layout();
    let code_len = prefix().len() + n;
    with_field(
        with_field(
            with_field(
                with_field(prefix(), m.start_html.start as int, m.html_open_in_prefix as nat),
                m.end_html.start as int,
                (m.html_close_in_suffix + code_len) as nat,
            ),
            m.start_fragment.start as int,
            m.start_fragment_in_prefix as nat,
        ),
        m.end_fragment.start as int,
        (m.end_fragment_in_suffix + code_len) as nat,
    )
}

/// The container for the fragment `body`.
pub open spec fn document(body: Seq<u8>) -> Seq<u8> {
    header(body.len()) + body + suffix()
}

/// A fragment of `n` bytes gives a container whose offsets fit their fields
/// and whose length fits the machine.
pub open spec fn document_fits(n: nat) -> bool {
    &&& prefix().len() + n + suffix().len() < FIELD_LIMIT
    &&& prefix().len() + n + suffix().len() <= usize::MAX
}

/// The strings that the fragments hold.
pub open spec fn strings_of(codes: Seq<Cow<'_, str>>) -> Seq<Seq<char>> {
    Seq::new(codes.len(), |i: int| codes[i]@)
}

/// The bytes of the strings, one after the other.
pub open spec fn bytes_of(strings: Seq<Seq<char>>) -> Seq<u8>
    decreases strings.len(),
{
    if strings.len() == 0 {
        seq![]
    } else {
        bytes_of(strings.drop_last()) + encode_utf8(strings.last())
    }
}

pub proof fn lemma_pow10_field()
    ensures
        pow10(FIELD_WIDTH as nat) == FIELD_LIMIT,
{
    reveal_with_fuel(pow10, 11);
}

proof fn lemma_with_field(s: Seq<u8>, at: int, x: nat)
    requires
        0 <= at,
        at + FIELD_WIDTH <= s.len(),
        x < FIELD_LIMIT,
    ensures
        with_field(s, at, x).len() == s.len(),
        forall|i: int|
            0 <= i < s.len() && !(at <= i < at + FIELD_WIDTH) ==> #[trigger] with_field(s, at, x)[i]
                == s[i],
        forall|i: int|
            at <= i < at + FIELD_WIDTH ==> 0x30 <= #[trigger] with_field(s, at, x)[i] <= 0x39,
        with_field(s, at, x).subrange(at, at + FIELD_WIDTH) == decimal(x, FIELD_WIDTH as nat),
{
    lemma_pow10_field();
    lemma_read_decimal(x, FIELD_WIDTH as nat);
    let d = decimal(x, FIELD_WIDTH as nat);
    let w = with_field(s, at, x);
    assert forall|i: int| at <= i < at + FIELD_WIDTH implies 0x30 <= #[trigger] w[i] <= 0x39 by {
        assert(w[i] == d[i - at]);
    }
    assert(w.subrange(at, at + FIELD_WIDTH) =~= d);
}

proof fn lemma_field_kept(s: Seq<u8>, at: int, x: nat, other: int)
    requires
        0 <= at,
        at + FIELD_WIDTH <= s.len(),
        x < FIELD_LIMIT,
        0 <= other,
        other + FIELD_WIDTH <= s.len(),
        other + FIELD_WIDTH <= at || at + FIELD_WIDTH <= other,
        zero_filled(s.subrange(other, other + FIELD_WIDTH)),
    ensures
        zero_filled(with_field(s, at, x).subrange(other, other + FIELD_WIDTH)),
{
    lemma_with_field(s, at, x);
    let w = with_field(s, at, x);
    let f = w.subrange(other, other + FIELD_WIDTH);
    assert forall|i: int| 0 <= i < f.len() implies f[i] == 0x30 by {
        assert(w[other + i] == s[other + i]);
        assert(s.subrange(other, other + FIELD_WIDTH)[i] == 0x30);
    }
}

/// The string behind a fragment.
fn cow_str<'b>(c: &'b Cow<'_, str>) -> (s: &'b str)
    ensures
        s@ == c@,
{
    match c {
        Cow::Borrowed(s) => s,
        Cow::Owned(s) => s.as_str(),
    }
}

proof fn lemma_bytes_of_grows(codes: Seq<Seq<char>>, i: int)
    requires
        0 <= i <= codes.len(),
    ensures
        bytes_of(codes.take(i)).len() <= bytes_of(codes).len(),
    decreases codes.len() - i,
{
    if i < codes.len() {
        lemma_bytes_of_grows(codes, i + 1);
        assert(codes.take(i + 1).drop_last() =~= codes.take(i));
    } else {
        assert(codes.take(i) =~= codes);
    }
}

/// The length of the container for these fragments, if its offsets fit
/// their fields and the machine.
pub fn container_len<'a>(codes: &Vec<Cow<'a, str>>) -> (r: Option<usize>)
    ensures
        r is Some <==> document_fits(bytes_of(strings_of(codes@)).len()),
        r matches Some(n) ==> n == prefix().len() + bytes_of(strings_of(codes@)).len() + suffix().len(),
{
    let ghost strings = strings_of(codes@);
    proof {
        lemma_layout();
        assert(strings.take(0) =~= Seq::empty());
    }
    let mut total: u64 = (TEMPLATE_PREFIX.as_bytes().len() + TEMPLATE_SUFFIX.as_bytes().len())
        as u64;
    let mut i: usize = 0;
    while i < codes.len()
        invariant
            i <= codes.len(),
            prefix().len() == 385,
            suffix().len() == 34,
            strings == strings_of(codes@),
            total == 419 + bytes_of(strings.take(i as int)).len(),
            total < FIELD_LIMIT,
        decreases codes.len() - i,
    {
        let len = cow_str(&codes[i]).as_bytes().len() as u64;
        proof {
            assert(strings.take(i + 1).drop_last() =~= strings.take(i as int));
            assert(strings.take(i + 1).last() == codes@[i as int]@);
            lemma_bytes_of_grows(strings, i + 1);
        }
        if len >= FIELD_LIMIT - total {
            return None;
        }
        total = total + len;
        i += 1;
    }
    proof {
        assert(strings.take(i as int) =~= strings);
    }
    if total > usize::MAX as u64 {
        None
    } else {
        Some(total as usize)
    }
}

fn patch(buf: &mut Vec<u8>, at: usize, x: usize)
    requires
        at + FIELD_WIDTH <= old(buf)@.len(),
        zero_filled(old(buf)@.subrange(at as int, at + FIELD_WIDTH)),
        x < FIELD_LIMIT,
    ensures
        final(buf)@ == with_field(old(buf)@, at as int, x as nat),
{
    let ghost before = buf@;
    let slice = buf.as_mut_slice();
    let (head, tail) = slice.split_at_mut(at);
    let (field, rest) = tail.split_at_mut(FIELD_WIDTH);
    proof {
        lemma_pow10_field();
        assert(field@ =~= before.subrange(at as int, at + FIELD_WIDTH));
        lemma_put_digits_on_zeros(field@, x as nat);
    }
    usize_to_str(field, x);
    proof {
        assert(head@ =~= before.subrange(0, at as int));
        assert(rest@ =~= before.subrange(at + FIELD_WIDTH, before.len() as int));
    }
}

/// Every byte is ASCII.
pub open spec fn is_ascii_bytes(s: Seq<u8>) -> bool {
    forall|i: int| 0 <= i < s.len() ==> s[i] < 0x80
}

proof fn lemma_fields()
    ensures
        prefix().len() == 385,
        suffix().len() == 34,
        is_ascii_bytes(prefix()),
        zero_filled(prefix().subrange(22, 32)),
        zero_filled(prefix().subrange(41, 51)),
        zero_filled(prefix().subrange(66, 76)),
        zero_filled(prefix().subrange(89, 99)),
{
    lemma_layout();
}

proof fn lemma_patched(s: Seq<u8>, at: int, x: nat)
    requires
        0 <= at,
        at + FIELD_WIDTH <= s.len(),
        x < FIELD_LIMIT,
        is_ascii_bytes(s),
    ensures
        with_field(s, at, x).len() == s.len(),
        is_ascii_bytes(with_field(s, at, x)),
{
    lemma_with_field(s, at, x);
    let w = with_field(s, at, x);
    assert forall|i: int| 0 <= i < w.len() implies w[i] < 0x80 by {
        if at <= i < at + FIELD_WIDTH {
        } else {
            assert(w[i] == s[i]);
        }
    }
}

/// The prefix with its four fields filled in for a fragment of `body_len`
/// bytes.
fn write_header(meta: &Meta, body_len: usize) -> (out: Vec<u8>)
    requires
        meta.wf(),
        document_fits(body_len as nat),
    ensures
        out@ == header(body_len as nat),
        is_ascii_bytes(out@),
{
    proof {
        lemma_fields();
    }
    let mut out: Vec<u8> = Vec::new();
    out.extend_from_slice(TEMPLATE_PREFIX.as_bytes());
    let code_len = out.len() + body_len;
    let ghost s0 = out@;
    let ghost end = (34 + code_len) as nat;
    let ghost frag = (18 + code_len) as nat;
    proof {
        assert(s0 =~= prefix());
        lemma_patched(s0, 22, 100);
        lemma_field_kept(s0, 22, 100, 41);
        lemma_field_kept(s0, 22, 100, 66);
        lemma_field_kept(s0, 22, 100, 89);
    }
    patch(&mut out, meta.start_html.start, meta.html_open_in_prefix);
    let ghost s1 = out@;
    proof {
        lemma_patched(s1, 41, end);
        lemma_field_kept(s1, 41, end, 66);
        lemma_field_kept(s1, 41, end, 89);
    }
    patch(&mut out, meta.end_html.start, meta.html_close_in_suffix + code_len);
    let ghost s2 = out@;
    proof {
        lemma_patched(s2, 66, 365);
        lemma_field_kept(s2, 66, 365, 89);
    }
    patch(&mut out, meta.start_fragment.start, meta.start_fragment_in_prefix);
    let ghost s3 = out@;
    proof {
        lemma_patched(s3, 89, frag);
    }
    patch(&mut out, meta.end_fragment.start, meta.end_fragment_in_suffix + code_len);
    out
}

/// Builds the container for the fragments: the prefix with its header
/// filled in, the fragments in order, the suffix.
pub fn wrap_html<'a>(meta: &Meta, codes: &Vec<Cow<'a, str>>) -> (html: String)
    requires
        meta.wf(),
        document_fits(bytes_of(strings_of(codes@)).len()),
    ensures
        encode_utf8(html@) == document(bytes_of(strings_of(codes@))),
{
    let total = container_len(codes).unwrap();
    proof {
        lemma_fields();
    }
    let body_len = total - TEMPLATE_PREFIX.as_bytes().len() - TEMPLATE_SUFFIX.as_bytes().len();
    let ghost strings = strings_of(codes@);
    let ghost n = bytes_of(strings).len();
    let mut out = write_header(meta, body_len);
    proof {
        lemma_ascii_is_utf8(out@);
        assert(strings.take(0) =~= Seq::empty());
        assert(out@ + bytes_of(strings.take(0)) =~= out@);
    }
    let mut i: usize = 0;
    while i < codes.len()
        invariant
            i <= codes.len(),
            strings == strings_of(codes@),
            out@ == header(n) + bytes_of(strings.take(i as int)),
            valid_utf8(out@),
        decreases codes.len() - i,
    {
        let piece = cow_str(&codes[i]);
        let ghost before = out@;
        out.extend_from_slice(piece.as_bytes());
        proof {
            assert(strings.take(i + 1).drop_last() =~= strings.take(i as int));
            assert(strings.take(i + 1).last() == piece@);
            encode_utf8_valid_utf8(piece@);
            assert(out@ =~= before + piece.spec_bytes());
            valid_utf8_concat(before, piece.spec_bytes());
            assert(out@ =~= header(n) + bytes_of(strings.take(i + 1)));
        }
        i += 1;
    }
    let ghost before = out@;
    out.extend_from_slice(TEMPLATE_SUFFIX.as_bytes());
    proof {
        assert(strings.take(i as int) =~= strings);
        encode_utf8_valid_utf8(TEMPLATE_SUFFIX@);
        assert(out@ =~= before + suffix());
        valid_utf8_concat(before, suffix());
    }
    string_from_utf8(out).unwrap()
}

/// Builds the container if its offsets fit their fields, and says so if
/// they do not.
pub fn try_wrap_html<'a>(meta: &Meta, codes: &Vec<Cow<'a, str>>) -> (r: Option<String>)
    requires
        meta.wf(),
    ensures
        r is Some <==> document_fits(bytes_of(strings_of(codes@)).len()),
        r matches Some(html) ==> encode_utf8(html@) == document(bytes_of(strings_of(codes@))),
{
    if container_len(codes).is_some() {
        Some(wrap_html(meta, codes))
    } else {
        None
    }
}


proof fn lemma_header(n: nat)
    requires
        document_fits(n),
    ensures
        header(n).len() == prefix().len(),
        forall|i: int|
            0 <= i < prefix().len() && !(22 <= i < 32) && !(41 <= i < 51) && !(66 <= i < 76) && !(89
                <= i < 99) ==> #[trigger] header(n)[i] == prefix()[i],
        header(n).subrange(22, 32) == decimal(100, 10),
        header(n).subrange(41, 51) == decimal((34 + 385 + n) as nat, 10),
        header(n).subrange(66, 76) == decimal(365, 10),
        header(n).subrange(89, 99) == decimal((18 + 385 + n) as nat, 10),
{
    lemma_fields();
    let end = (34 + 385 + n) as nat;
    let frag = (18 + 385 + n) as nat;
    let s0 = prefix();
    let s1 = with_field(s0, 22, 100);
    let s2 = with_field(s1, 41, end);
    let s3 = with_field(s2, 66, 365);
    let s4 = with_field(s3, 89, frag);
    lemma_with_field(s0, 22, 100);
    lemma_with_field(s1, 41, end);
    lemma_with_field(s2, 66, 365);
    lemma_with_field(s3, 89, frag);
    assert(header(n) == s4);
    assert forall|i: int|
        0 <= i < s0.len() && !(22 <= i < 32) && !(41 <= i < 51) && !(66 <= i < 76) && !(89 <= i
            < 99) implies #[trigger] s4[i] == s0[i] by {
        assert(s4[i] == s3[i]);
        assert(s3[i] == s2[i]);
        assert(s2[i] == s1[i]);
        assert(s1[i] == s0[i]);
    }
    assert(s4.subrange(22, 32) =~= s1.subrange(22, 32)) by {
        assert forall|i: int| 22 <= i < 32 implies s4[i] == s1[i] by {
            assert(s4[i] == s3[i]);
            assert(s3[i] == s2[i]);
            assert(s2[i] == s1[i]);
        }
    }
    assert(s4.subrange(41, 51) =~= s2.subrange(41, 51)) by {
        assert forall|i: int| 41 <= i < 51 implies s4[i] == s2[i] by {
            assert(s4[i] == s3[i]);
            assert(s3[i] == s2[i]);
        }
    }
    assert(s4.subrange(66, 76) =~= s3.subrange(66, 76)) by {
        assert forall|i: int| 66 <= i < 76 implies s4[i] == s3[i] by {
            assert(s4[i] == s3[i]);
        }
    }
}

/// A tag that stands in `p` outside the fields stands in the document too,
/// `shift` bytes further when `p` follows `shift` bytes of it.
proof fn lemma_tag_stays(d: Seq<u8>, p: Seq<u8>, shift: int, at: int, tag: Seq<u8>)
    requires
        has_tag(p, at, tag),
        0 <= shift,
        shift + p.len() <= d.len(),
        forall|k: int| at <= k < at + tag.len() ==> d[shift + k] == p[k],
    ensures
        has_tag(d, shift + at, tag),
{
    let w = p.subrange(at, at + tag.len());
    assert forall|k: int| 0 <= k < tag.len() implies d.subrange(
        shift + at,
        shift + at + tag.len(),
    )[k] == tag[k] by {
        assert(w[k] == p[at + k]);
    }
    assert(d.subrange(shift + at, shift + at + tag.len()) =~= tag);
}

/// A field of the container with the label in front of it: the label
/// stands right before the colon that precedes the field.
pub open spec fn field_named(d: Seq<u8>, label: Seq<u8>, field: Range<usize>) -> bool {
    &&& has_tag(d, field.start - label.len() - 1, label)
    &&& d[field.start - 1] == 0x3a
}

/// The number that the field holds.
pub open spec fn field_value(d: Seq<u8>, field: Range<usize>) -> nat {
    read_decimal(d.subrange(field.start as int, field.end as int))
}

/// The offsets of the container are true, whatever bytes the fragment
/// holds, multi-byte characters included.
///
/// Each field follows its label and spells a byte offset into the finished
/// buffer: `StartHTML` the place where `<html` opens, `EndHTML` the place
/// just past `</html>`, which is the end of the buffer, `StartFragment` the
/// place of the start marker, and `EndFragment` the place just past the end
/// marker. The fragment stands between the two markers, byte for byte.
pub proof fn lemma_offsets_match_markers(body: Seq<u8>)
    requires
        document_fits(body.len()),
    ensures
        ({
            let d = document(body);
            let m = layout();
            let start = prefix().len() as int;
            &&& d.len() == prefix().len() + body.len() + suffix().len()
            &&& d.subrange(start, start + body.len()) == body
            &&& field_named(d, "StartHTML".spec_bytes(), m.start_html)
            &&& has_tag(d, field_value(d, m.start_html) as int, "<html".spec_bytes())
            &&& field_named(d, "EndHTML".spec_bytes(), m.end_html)
            &&& has_tag(
                d,
                field_value(d, m.end_html) - "</html>".spec_bytes().len(),
                "</html>".spec_bytes(),
            )
            &&& field_value(d, m.end_html) == d.len()
            &&& field_named(d, "StartFragment".spec_bytes(), m.start_fragment)
            &&& has_tag(
                d,
                field_value(d, m.start_fragment) as int,
                "<!--StartFragment-->".spec_bytes(),
            )
            &&& field_value(d, m.start_fragment) + "<!--StartFragment-->".spec_bytes().len()
                == start
            &&& field_named(d, "EndFragment".spec_bytes(), m.end_fragment)
            &&& has_tag(d, start + body.len(), "<!--EndFragment-->".spec_bytes())
            &&& field_value(d, m.end_fragment) == start + body.len()
                + "<!--EndFragment-->".spec_bytes().len()
        }),
{
    let n = body.len() as int;
    let d = document(body);
    let h = header(body.len());
    let p = prefix();
    let s = suffix();
    lemma_layout();
    lemma_header(body.len());
    lemma_pow10_field();
    reveal_strlit("<!--StartFragment-->");
    is_ascii_spec_bytes("<!--StartFragment-->");
    assert(d.subrange(385, 385 + n) =~= body);
    assert(d.subrange(22, 32) =~= h.subrange(22, 32));
    assert(d.subrange(41, 51) =~= h.subrange(41, 51));
    assert(d.subrange(66, 76) =~= h.subrange(66, 76));
    assert(d.subrange(89, 99) =~= h.subrange(89, 99));
    lemma_read_decimal(100, 10);
    lemma_read_decimal((34 + 385 + n) as nat, 10);
    lemma_read_decimal(365, 10);
    lemma_read_decimal((18 + 385 + n) as nat, 10);
    lemma_tag_stays(d, p, 0, 12, "StartHTML".spec_bytes());
    lemma_tag_stays(d, p, 0, 33, "EndHTML".spec_bytes());
    lemma_tag_stays(d, p, 0, 52, "StartFragment".spec_bytes());
    lemma_tag_stays(d, p, 0, 77, "EndFragment".spec_bytes());
    lemma_tag_stays(d, p, 0, 100, "<html".spec_bytes());
    lemma_tag_stays(d, p, 0, 365, "<!--StartFragment-->".spec_bytes());
    lemma_tag_stays(d, s, 385 + n, 27, "</html>".spec_bytes());
    lemma_tag_stays(d, s, 385 + n, 0, "<!--EndFragment-->".spec_bytes());
    assert(d[21] == p[21] && d[40] == p[40] && d[65] == p[65] && d[88] == p[88]);
}

/// Building is repeatable: two results for the same strings in the same
/// order are the same string, byte for byte.
pub proof fn lemma_wrap_html_repeatable(strings: Seq<Seq<char>>, first: Seq<char>, second: Seq<char>)
    requires
        encode_utf8(first) == document(bytes_of(strings)),
        encode_utf8(second) == document(bytes_of(strings)),
    ensures
        first == second,
{
    encode_utf8_decode_utf8(first);
    encode_utf8_decode_utf8(second);
}

} // verus!
