use crab_gallery::text::{
    contains, is_blank, push_int, push_nat, strip_prefix, without_trailing_slashes,
};

#[test]
fn blank_text_is_white_space_of_std() {
    for u in 0..0x11_0000u32 {
        if let Some(c) = char::from_u32(u) {
            assert_eq!(is_blank(&c.to_string()), c.is_whitespace(), "{u:x}");
        }
    }
    assert!(is_blank(""));
    assert!(is_blank(" \t\n"));
    assert!(!is_blank(" a "));
}

#[test]
fn numbers_are_written_in_decimal() {
    for n in [0u64, 7, 10, 99, 100, 1920, u64::MAX] {
        let mut s = String::from("x");
        push_nat(&mut s, n);
        assert_eq!(s, format!("x{n}"));
    }
    for n in [0i64, -1, 42, -1000, i64::MAX, i64::MIN] {
        let mut s = String::new();
        push_int(&mut s, n);
        assert_eq!(s, n.to_string());
    }
}

#[test]
fn searching_and_trimming() {
    for hay in ["", "a", "aab", "abab", "multipart/form-data; boundary=x"] {
        for needle in ["", "a", "ab", "bab", "aaaa", "multipart/form-data"] {
            assert_eq!(contains(hay, needle), hay.contains(needle), "{hay} {needle}");
            assert_eq!(
                strip_prefix(hay, needle).as_deref(),
                hay.strip_prefix(needle),
                "{hay} {needle}"
            );
        }
    }
    assert_eq!(without_trailing_slashes("a/b///"), "a/b");
    assert_eq!(without_trailing_slashes("///"), "");
}
