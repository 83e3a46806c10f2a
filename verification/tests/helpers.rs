use routetype::compile::{chars_of, find_char, split_chars, text_of};
use routetype::normalize::{has_empty, keep_filled};
use routetype::percent::{encode_append, must_escape, EscapeSet};
use routetype::raw::{find_byte, parse_query_pair, split_bytes};
use routetype::route::{clone_pairs, clone_segments};
use routetype::text::{bytes_eq, text_eq};

#[test]
fn escape_sets() {
    for b in 0u8..=255 {
        let query = b < 0x20 || b >= 0x7f || b" \"#<>%&=".contains(&b);
        let path = query || b"?`{}/".contains(&b);
        assert_eq!(must_escape(b, EscapeSet::Query), query, "{}", b);
        assert_eq!(must_escape(b, EscapeSet::Path), path, "{}", b);
    }
}

#[test]
fn encode_appends_to_what_is_there() {
    let mut out = "x=".to_owned();
    encode_append(&mut out, "a/b é", EscapeSet::Query);
    assert_eq!(out, "x=a/b%20%C3%A9");
    encode_append(&mut out, "a/b", EscapeSet::Path);
    assert_eq!(out, "x=a/b%20%C3%A9a%2Fb");
    encode_append(&mut out, "", EscapeSet::Path);
    assert_eq!(out, "x=a/b%20%C3%A9a%2Fb");
}

#[test]
fn first_separator() {
    assert_eq!(find_byte(b"a?b?c", b'?'), 1);
    assert_eq!(find_byte(b"abc", b'?'), 3);
    assert_eq!(find_byte(b"", b'?'), 0);
    assert_eq!(find_char(&['a', '=', '='], '='), 1);
    assert_eq!(find_char(&['a'], '='), 1);
}

#[test]
fn splitting_keeps_empty_pieces() {
    let pieces: Vec<&[u8]> = vec![b"a", b"", b"b", b""];
    assert_eq!(split_bytes(b"a//b/", b'/'), pieces);
    let whole: Vec<&[u8]> = vec![b"abc"];
    assert_eq!(split_bytes(b"abc", b'/'), whole);
    let nothing: Vec<&[u8]> = vec![b""];
    assert_eq!(split_bytes(b"", b'/'), nothing);
    let chars = chars_of("é&&x");
    assert_eq!(chars, vec!['é', '&', '&', 'x']);
    let pieces: Vec<&[char]> = vec![&['é'], &[], &['x']];
    assert_eq!(split_chars(&chars, '&'), pieces);
    assert_eq!(text_of(&chars), "é&&x");
}

#[test]
fn pairs_are_split_at_first_equal_sign() {
    assert_eq!(parse_query_pair(b"a"), ("a".to_owned(), None));
    assert_eq!(
        parse_query_pair(b"a="),
        ("a".to_owned(), Some("".to_owned()))
    );
    assert_eq!(
        parse_query_pair(b"=a"),
        ("".to_owned(), Some("a".to_owned()))
    );
    assert_eq!(
        parse_query_pair(b"a%3D=%3D=b"),
        ("a=".to_owned(), Some("==b".to_owned()))
    );
}

#[test]
fn comparing_texts_and_bytes() {
    assert!(text_eq("", ""));
    assert!(text_eq("שלום", "שלום"));
    assert!(!text_eq("a", "A"));
    assert!(!text_eq("a", "ab"));
    assert!(bytes_eq(b"\xff\x00", b"\xff\x00"));
    assert!(!bytes_eq(b"\xff\x00", b"\xff\x01"));
    assert!(!bytes_eq(b"", b"\x00"));
}

#[test]
fn empty_segments_found_and_dropped() {
    let path = vec!["a".to_owned(), "".to_owned(), "b".to_owned(), "".to_owned()];
    assert!(has_empty(&path));
    assert_eq!(keep_filled(&path), vec!["a".to_owned(), "b".to_owned()]);
    let path = vec!["a".to_owned(), "-".to_owned()];
    assert!(!has_empty(&path));
    assert_eq!(keep_filled(&path), path);
    assert!(!has_empty(&[]));
}

#[test]
fn copies_are_equal() {
    let path = vec!["a".to_owned(), "".to_owned()];
    assert_eq!(clone_segments(&path), path);
    let pairs = vec![
        ("a".to_owned(), None),
        ("b".to_owned(), Some("".to_owned())),
    ];
    assert_eq!(clone_pairs(&pairs), pairs);
}
