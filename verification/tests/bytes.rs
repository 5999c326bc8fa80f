use fairplay_auth::bytes::{append, ascii_bytes, bytes_eq, find_byte, matches_at};

#[test]
fn ascii_bytes_are_the_bytes_of_the_text() {
    assert_eq!(ascii_bytes("Bearer "), b"Bearer ");
    assert_eq!(ascii_bytes(""), b"");
}

#[test]
fn append_adds_at_the_end() {
    let mut out = b"ab".to_vec();
    append(&mut out, b"cd");
    append(&mut out, b"");
    assert_eq!(out, b"abcd".to_vec());
}

#[test]
fn bytes_eq_compares_whole_strings() {
    assert!(bytes_eq(b"", b""));
    assert!(bytes_eq(b"abc", b"abc"));
    assert!(!bytes_eq(b"abc", b"abd"));
    assert!(!bytes_eq(b"abc", b"ab"));
    assert!(!bytes_eq(b"ab", b"abc"));
}

#[test]
fn matches_at_looks_at_one_position() {
    assert!(matches_at(b"Bearer abc", 0, b"Bearer "));
    assert!(matches_at(b"Bearer abc", 7, b"abc"));
    assert!(matches_at(b"abc", 3, b""));
    assert!(!matches_at(b"Bearer abc", 1, b"Bearer "));
    assert!(!matches_at(b"Bear", 0, b"Bearer "));
    assert!(!matches_at(b"abc", 4, b""));
    assert!(!matches_at(b"abc", usize::MAX, b"c"));
}

#[test]
fn find_byte_finds_the_first_occurrence() {
    assert_eq!(find_byte(b"a.b.c", 0, b'.'), Some(1));
    assert_eq!(find_byte(b"a.b.c", 1, b'.'), Some(1));
    assert_eq!(find_byte(b"a.b.c", 2, b'.'), Some(3));
    assert_eq!(find_byte(b"a.b.c", 4, b'.'), None);
    assert_eq!(find_byte(b"a.b.c", 9, b'.'), None);
    assert_eq!(find_byte(b"", 0, b'.'), None);
}
