use webcrawl::unpack::unpack_string;

#[test]
fn test_unpack() {
    assert_eq!(unpack_string("a4bc2d5e").unwrap(), "aaaabccddddde");
    assert_eq!(unpack_string("abcd").unwrap(), "abcd");
    assert_eq!(unpack_string("").unwrap(), "");
    assert_eq!(unpack_string("a10").unwrap(), "aaaaaaaaaa");
    assert!(unpack_string("45").is_err());
}

#[test]
fn test_escape_sequences() {
    assert_eq!(unpack_string(r"qwe\4\5").unwrap(), "qwe45");
    assert_eq!(unpack_string(r"qwe\45").unwrap(), "qwe44444");
    assert_eq!(unpack_string(r"qwe\\5").unwrap(), r"qwe\\\\\");
}

#[test]
fn test_invalid_escape_sequence() {
    assert!(unpack_string(r"qwe\").is_err());
    assert!(unpack_string(r"\").is_err());
}

#[test]
fn test_unpack_digit_after_escaped_digit() {
    assert_eq!(unpack_string(r"\00").is_err(), false);
    assert_eq!(unpack_string(r"\00").unwrap(), "");
    assert_eq!(unpack_string(r"\12").unwrap(), "11");
}

#[test]
fn test_unpack_zero_count_drops_character() {
    assert_eq!(unpack_string("ab0").unwrap(), "a");
}
