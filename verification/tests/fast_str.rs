use tachyon_json::FastStr;

#[test]
fn new_wraps_the_text_and_sets_the_marker() {
    let f = FastStr::new("hello");
    assert_eq!(f.text, "hello");
    assert!(f.literal);
}

#[test]
fn as_str_with_the_full_length_gives_the_text() {
    let f = FastStr::new("hello");
    assert_eq!(f.as_str(5), "hello");
}

#[test]
fn as_str_with_a_shorter_length_gives_a_prefix() {
    let f = FastStr::new("h\u{e9}llo");
    assert_eq!(f.as_str(0), "");
    assert_eq!(f.as_str(1), "h");
    assert_eq!(f.as_str(3), "h\u{e9}");
}

#[test]
fn as_str_does_not_depend_on_the_marker() {
    let f = FastStr { text: "abc", literal: false };
    assert_eq!(f.as_str(3), "abc");
    assert_eq!(f.as_str(2), "ab");
}

#[test]
fn fast_str_is_copy() {
    let f = FastStr::new("abc");
    let g = f;
    assert_eq!(f.as_str(3), g.as_str(3));
    assert_eq!(f.literal, g.literal);
}

#[test]
fn empty_text_has_an_empty_view() {
    let f = FastStr::new("");
    assert_eq!(f.as_str(0), "");
}
