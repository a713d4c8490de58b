use tachyon_json::TachyonBuffer;

#[test]
fn default_buffer_is_empty_and_clear() {
    let b = TachyonBuffer::<16>::default();
    assert_eq!(b.as_slice(), b"");
    assert_eq!(b.as_str(), "");
    assert_eq!(b.to_vec(), Vec::<u8>::new());
    assert!(!b.has_error());
}

#[test]
fn write_appends_and_advances() {
    let mut b = TachyonBuffer::<16>::default();
    b.write(b"abc");
    b.write(b"");
    b.write(b"de");
    assert_eq!(b.as_slice(), b"abcde");
    assert!(!b.has_error());
}

#[test]
fn write_fills_exactly_to_capacity() {
    let mut b = TachyonBuffer::<4>::default();
    b.write(b"ab");
    b.write(b"cd");
    assert_eq!(b.as_slice(), b"abcd");
    assert!(!b.has_error());
    b.write(b"");
    assert!(!b.has_error());
}

#[test]
fn write_that_does_not_fit_writes_nothing_and_sets_error() {
    let mut b = TachyonBuffer::<4>::default();
    b.write(b"abc");
    b.write(b"de");
    assert_eq!(b.as_slice(), b"abc");
    assert!(b.has_error());
}

#[test]
fn error_is_sticky_until_reset() {
    let mut b = TachyonBuffer::<4>::default();
    b.write(b"abcde");
    assert!(b.has_error());
    b.write(b"a");
    b.write_char(b'x');
    b.write_str("y");
    assert_eq!(b.as_slice(), b"");
    assert!(b.has_error());
    b.reset_pos();
    assert!(!b.has_error());
    b.write(b"a");
    assert_eq!(b.as_slice(), b"a");
}

#[test]
fn reset_pos_rewinds_and_clears_error() {
    let mut b = TachyonBuffer::<8>::default();
    b.write(b"abcdef");
    b.write(b"ghi");
    assert!(b.has_error());
    b.reset_pos();
    assert_eq!(b.as_slice(), b"");
    assert!(!b.has_error());
    b.write(b"xy");
    assert_eq!(b.as_slice(), b"xy");
}

#[test]
fn zero_capacity_buffer_takes_only_empty_writes() {
    let mut b = TachyonBuffer::<0>::default();
    b.write(b"");
    assert!(!b.has_error());
    b.write_char(b'a');
    assert!(b.has_error());
    assert_eq!(b.as_slice(), b"");
}

#[test]
fn write_str_and_write_char_wrap_write() {
    let mut b = TachyonBuffer::<8>::default();
    b.write_str("h\u{e9}");
    b.write_char(b'!');
    assert_eq!(b.as_slice(), &[b'h', 0xC3, 0xA9, b'!']);
    assert_eq!(b.as_str(), "h\u{e9}!");
    b.write_str("too long");
    assert!(b.has_error());
    assert_eq!(b.as_str(), "h\u{e9}!");
}

#[test]
fn set_error_keeps_what_was_written() {
    let mut b = TachyonBuffer::<8>::default();
    b.write(b"ab");
    b.set_error();
    assert!(b.has_error());
    assert_eq!(b.as_slice(), b"ab");
}

#[test]
fn has_room_tells_whether_a_write_would_be_accepted() {
    let mut b = TachyonBuffer::<4>::default();
    assert!(b.has_room(0));
    assert!(b.has_room(4));
    assert!(!b.has_room(5));
    assert!(!b.has_room(usize::MAX));
    b.write(b"abc");
    assert!(b.has_room(1));
    assert!(!b.has_room(2));
    b.set_error();
    assert!(!b.has_room(0));
    assert!(!b.has_room(1));
}

#[test]
fn as_str_gives_written_text() {
    let mut b = TachyonBuffer::<32>::default();
    b.write_str("{\"k\":\"v\"}");
    assert_eq!(b.as_str(), "{\"k\":\"v\"}");
}

#[test]
fn as_str_of_invalid_utf8_is_empty() {
    let mut b = TachyonBuffer::<8>::default();
    b.write(&[b'a', 0xFF, b'b']);
    assert_eq!(b.as_slice(), &[b'a', 0xFF, b'b']);
    assert_eq!(b.as_str(), "");
    let mut cut = TachyonBuffer::<8>::default();
    cut.write(&[0xC3]);
    assert_eq!(cut.as_str(), "");
}

#[test]
fn to_vec_copies_the_written_prefix() {
    let mut b = TachyonBuffer::<8>::default();
    b.write(b"abc");
    let v = b.to_vec();
    b.write(b"d");
    assert_eq!(v, vec![b'a', b'b', b'c']);
    assert_eq!(b.to_vec(), vec![b'a', b'b', b'c', b'd']);
}

#[test]
fn buffer_is_copy_and_copies_are_independent() {
    let mut a = TachyonBuffer::<8>::default();
    a.write(b"ab");
    let mut c = a;
    c.write(b"cd");
    assert_eq!(a.as_slice(), b"ab");
    assert_eq!(c.as_slice(), b"abcd");
}

#[test]
fn unchecked_primitives_append() {
    let mut b = TachyonBuffer::<8>::default();
    b.write_char_fast(b'[');
    b.write_raw_bytes(b"1,2");
    b.write_char_fast(b']');
    assert_eq!(b.as_slice(), b"[1,2]");
    assert!(!b.has_error());
    b.write_raw_bytes(b"");
    b.write_raw_bytes(b"abc");
    assert_eq!(b.as_slice(), b"[1,2]abc");
}

#[test]
fn fast_copy_of_seven_bytes_matches_generic_copy() {
    let src = b"abcdefg";
    let mut fast = TachyonBuffer::<16>::default();
    fast.write_char_fast(b'"');
    fast.fast_copy(src);
    fast.write_char_fast(b'"');
    let mut plain = TachyonBuffer::<16>::default();
    plain.write(b"\"");
    plain.write(src);
    plain.write(b"\"");
    assert_eq!(fast.as_slice(), b"\"abcdefg\"");
    assert_eq!(fast.as_slice(), plain.as_slice());
}

#[test]
fn fast_copy_of_seven_bytes_advances_by_seven_not_eight() {
    let mut b = TachyonBuffer::<8>::default();
    b.fast_copy(b"1234567");
    assert_eq!(b.as_slice(), b"1234567");
    assert!(b.has_room(1));
    b.write_char_fast(b'8');
    assert_eq!(b.as_slice(), b"12345678");
}

#[test]
fn fast_copy_of_thirteen_bytes_matches_generic_copy() {
    let src = b"0123456789abc";
    let mut fast = TachyonBuffer::<14>::default();
    fast.fast_copy(src);
    let mut plain = TachyonBuffer::<14>::default();
    plain.write(src);
    assert_eq!(fast.as_slice(), b"0123456789abc");
    assert_eq!(fast.as_slice(), plain.as_slice());
}

#[test]
fn fast_copy_matches_generic_copy_for_every_length() {
    let data: Vec<u8> = (0u8..=40).map(|i| i.wrapping_mul(37).wrapping_add(200)).collect();
    for len in 0..=data.len() {
        let src = &data[..len];
        let mut fast = TachyonBuffer::<64>::default();
        fast.write(b"ab");
        fast.fast_copy(src);
        let mut plain = TachyonBuffer::<64>::default();
        plain.write(b"ab");
        plain.write_raw_bytes(src);
        assert_eq!(fast.as_slice(), plain.as_slice());
        assert_eq!(fast.as_slice().len(), 2 + len);
        assert_eq!(&fast.as_slice()[2..], src);
    }
}

#[test]
fn fast_copy_leaves_earlier_bytes_alone() {
    let mut b = TachyonBuffer::<32>::default();
    b.write(b"head:");
    b.fast_copy(b"sevenby");
    b.fast_copy(b"thirteenbytes");
    b.fast_copy(b"x");
    assert_eq!(b.as_slice(), b"head:sevenbythirteenbytesx");
}

#[test]
fn stale_bytes_behind_the_cursor_are_not_seen_after_reset() {
    let mut b = TachyonBuffer::<16>::default();
    b.write(b"0123456789");
    b.reset_pos();
    b.write(b"ab");
    assert_eq!(b.as_slice(), b"ab");
    assert_eq!(b.to_vec(), b"ab".to_vec());
}
