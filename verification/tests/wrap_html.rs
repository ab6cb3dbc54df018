use std::borrow::Cow;
use textocx::wrap_html::{
    container_len, find, try_wrap_html, usize_to_str, wrap_html, Meta, TEMPLATE_PREFIX,
    TEMPLATE_SUFFIX,
};

fn fragments<'a>(items: &[&'a str]) -> Vec<Cow<'a, str>> {
    items.iter().map(|s| Cow::Borrowed(*s)).collect()
}

fn field(buf: &[u8], label: &str) -> usize {
    let text = std::str::from_utf8(buf).unwrap();
    let at = text.find(label).unwrap() + label.len();
    text[at..at + 10].parse().unwrap()
}

#[test]
fn layout_is_where_the_templates_have_it() {
    let meta = Meta::get();
    assert_eq!(meta.start_html, 22..32);
    assert_eq!(meta.end_html, 41..51);
    assert_eq!(meta.start_fragment, 66..76);
    assert_eq!(meta.end_fragment, 89..99);
    assert_eq!(meta.html_open_in_prefix, 100);
    assert_eq!(meta.html_close_in_suffix, 34);
    assert_eq!(meta.start_fragment_in_prefix, 365);
    assert_eq!(meta.end_fragment_in_suffix, 18);
    assert_eq!(TEMPLATE_PREFIX.len(), 385);
    assert_eq!(TEMPLATE_SUFFIX.len(), 34);
    assert_eq!(Meta::range_for("EndHTML"), 41..51);
}

#[test]
fn header_is_the_fixed_one() {
    assert!(TEMPLATE_PREFIX.starts_with(
        "Version:1.0\nStartHTML:0000000000\nEndHTML:0000000000\nStartFragment:0000000000\nEndFragment:0000000000\n<html "
    ));
    assert!(TEMPLATE_PREFIX.ends_with("<body>\n<!--StartFragment-->"));
    assert_eq!(TEMPLATE_SUFFIX, "<!--EndFragment-->\n</body>\n</html>");
}

#[test]
fn find_gives_the_first_place() {
    assert_eq!(find("abcabc", "bc"), 1);
    assert_eq!(find("abc", ""), 0);
    assert_eq!(find("aab", "ab"), 1);
    assert_eq!(find(TEMPLATE_PREFIX, "<html"), 100);
    assert_eq!(find(TEMPLATE_PREFIX, "Fragment"), 57);
    assert_eq!(find("你好吗", "吗"), 6);
}

#[test]
fn digits_are_written_from_the_right() {
    let mut buf = *b"0000000000";
    usize_to_str(&mut buf, 365);
    assert_eq!(&buf, b"0000000365");
    let mut buf = *b"abcdef";
    usize_to_str(&mut buf, 12);
    assert_eq!(&buf, b"abcd12");
    let mut buf = *b"xyz";
    usize_to_str(&mut buf, 0);
    assert_eq!(&buf, b"xyz");
    let mut buf = *b"....";
    usize_to_str(&mut buf, 9999);
    assert_eq!(&buf, b"9999");
    let mut buf: [u8; 0] = [];
    usize_to_str(&mut buf, 0);
}

#[test]
fn empty_fragment_gives_the_bare_container() {
    let meta = Meta::get();
    let html = wrap_html(&meta, &fragments(&[]));
    assert_eq!(html.len(), 419);
    assert!(html.starts_with(
        "Version:1.0\nStartHTML:0000000100\nEndHTML:0000000419\nStartFragment:0000000365\nEndFragment:0000000403\n<html "
    ));
    assert!(html.ends_with("<!--StartFragment--><!--EndFragment-->\n</body>\n</html>"));
}

#[test]
fn fragments_are_written_in_order() {
    let meta = Meta::get();
    let html = wrap_html(&meta, &fragments(&["hello ", "<m:r>x2</m:r>", "", " world"]));
    let expected = format!(
        "{}{}{}",
        TEMPLATE_PREFIX
            .replace("StartHTML:0000000000", "StartHTML:0000000100")
            .replace("EndHTML:0000000000", "EndHTML:0000000444")
            .replace("StartFragment:0000000000", "StartFragment:0000000365")
            .replace("EndFragment:0000000000", "EndFragment:0000000428"),
        "hello <m:r>x2</m:r> world",
        TEMPLATE_SUFFIX
    );
    assert_eq!(html, expected);
}

#[test]
fn offsets_count_bytes_not_characters() {
    let meta = Meta::get();
    let body = "数学 <m:r>∑</m:r> 你好";
    let html = wrap_html(&meta, &fragments(&["数学 ", "<m:r>∑</m:r>", " 你好"]));
    let buf = html.as_bytes();
    let start_html = field(buf, "StartHTML:");
    let end_html = field(buf, "EndHTML:");
    let start_fragment = field(buf, "StartFragment:");
    let end_fragment = field(buf, "EndFragment:");
    assert!(buf[start_html..].starts_with(b"<html"));
    assert_eq!(end_html, buf.len());
    assert!(buf[..end_html].ends_with(b"</html>"));
    assert!(buf[start_fragment..].starts_with(b"<!--StartFragment-->"));
    assert!(buf[..end_fragment].ends_with(b"<!--EndFragment-->"));
    let inner = &buf[start_fragment + "<!--StartFragment-->".len()
        ..end_fragment - "<!--EndFragment-->".len()];
    assert_eq!(inner, body.as_bytes());
    assert_eq!(end_html, 419 + body.len());
    assert!(body.len() > body.chars().count());
}

#[test]
fn building_twice_gives_the_same_bytes() {
    let meta = Meta::get();
    let first = wrap_html(&meta, &fragments(&["a", "你好", "<i>", "b"]));
    let owned: Vec<Cow<str>> = vec![
        Cow::Owned(String::from("a")),
        Cow::Owned(String::from("你好")),
        Cow::Borrowed("<i>"),
        Cow::Owned(String::from("b")),
    ];
    let second = wrap_html(&Meta::get(), &owned);
    assert_eq!(first.as_bytes(), second.as_bytes());
}

#[test]
fn length_is_known_before_building() {
    assert_eq!(container_len(&fragments(&[])), Some(419));
    assert_eq!(container_len(&fragments(&["你好", "a"])), Some(426));
    let html = try_wrap_html(&Meta::get(), &fragments(&["你好", "a"])).unwrap();
    assert_eq!(html.len(), 426);
}
