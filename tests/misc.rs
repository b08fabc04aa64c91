use wisckey::bytes::{lcp, lex_less};

#[test]
fn it_works() {
    assert_eq!(2 + 2, 4);
}

#[test]
fn table_assert_always_true() {
    assert!(true)
}

#[test]
fn mod_assert_always_true() {
    assert!(true)
}

#[test]
fn values_assert_always_true() {
    assert!(true)
}

#[test]
fn test_lcp() {
    assert_eq!(b"", lcp(b"abc", b""));
    assert_eq!(b"ab", lcp(b"abc", b"ab"));
    assert_eq!(b"abc", lcp(b"abcd", b"abc"));
    assert_eq!(b"", lcp(b"babcd", b"abe"));
}

#[test]
fn lcp_of_equal_strings_is_the_whole_string() {
    assert_eq!(b"abc", lcp(b"abc", b"abc"));
    assert_eq!(b"", lcp(b"", b""));
}

#[test]
fn lexicographic_order() {
    assert!(lex_less(b"a", b"b"));
    assert!(lex_less(b"ab", b"abc"));
    assert!(lex_less(b"", b"a"));
    assert!(!lex_less(b"abc", b"abc"));
    assert!(!lex_less(b"b", b"abc"));
    assert!(lex_less(&[0x01, 0xff], &[0x02]));
}
