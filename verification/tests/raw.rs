use routetype::raw::{parse_path, parse_path_and_query, parse_query, render_path_and_query};

fn pq(s: &str) -> (Vec<String>, Option<Vec<(String, Option<String>)>>) {
    parse_path_and_query(s)
}

#[test]
fn pq_empty() {
    assert_eq!(pq(""), (vec![], None));
}

#[test]
fn pq_slash() {
    assert_eq!(pq("/"), (vec![], None));
}

#[test]
fn pq_question() {
    assert_eq!(pq("?"), (vec![], Some(vec![])));
}

#[test]
fn pq_slash_question() {
    assert_eq!(pq("/?"), (vec![], Some(vec![])));
}

fn make_path(x: &[&str]) -> Vec<String> {
    x.iter().copied().map(|s| s.to_owned()).collect()
}

fn make_query(x: &[(&str, Option<&str>)]) -> Vec<(String, Option<String>)> {
    x.iter()
        .copied()
        .map(|(k, v)| (k.to_owned(), v.map(|v| v.to_owned())))
        .collect()
}

#[test]
fn plain_pieces() {
    assert_eq!(
        pq("/foo/bar/baz"),
        (make_path(&["foo", "bar", "baz"]), None)
    );
}

#[test]
fn escaped_pieces() {
    assert_eq!(pq("/foo%2Fbar/baz"), (make_path(&["foo/bar", "baz"]), None));
    assert_eq!(pq("/foo%2fbar/baz"), (make_path(&["foo/bar", "baz"]), None));
}

#[test]
fn query_values_missing() {
    assert_eq!(
        pq("?foo&bar=&baz=bin"),
        (
            vec![],
            Some(make_query(&[
                ("foo", None),
                ("bar", Some("")),
                ("baz", Some("bin")),
            ]))
        )
    )
}

#[test]
fn question_in_query() {
    assert_eq!(
        pq("/foo/?bar=baz?"),
        (
            make_path(&["foo", ""]),
            Some(make_query(&[("bar", Some("baz?"))]))
        )
    )
}

#[test]
fn query_is_absent_without_question_mark() {
    assert!(parse_path_and_query("/foo/bar").1.is_none());
    assert!(parse_path_and_query("/foo/bar?").1.is_some());
}

#[test]
fn leading_slash_is_optional() {
    assert_eq!(parse_path("/foo"), make_path(&["foo"]));
    assert_eq!(parse_path("foo"), make_path(&["foo"]));
}

#[test]
fn repeated_and_trailing_slashes_give_empty_segments() {
    assert_eq!(parse_path("foo//bar/"), make_path(&["foo", "", "bar", ""]));
}

#[test]
fn question_mark_left_in_query_joins_first_key() {
    assert_eq!(
        parse_query("?key=value"),
        make_query(&[("?key", Some("value"))])
    );
}

#[test]
fn key_alone_and_key_with_equal_sign_differ() {
    let bare = parse_query("key");
    let empty = parse_query("key=");
    assert_eq!(bare, make_query(&[("key", None)]));
    assert_eq!(empty, make_query(&[("key", Some(""))]));
    assert_ne!(bare, empty);
    assert_eq!(
        parse_query("key=value"),
        make_query(&[("key", Some("value"))])
    );
}

#[test]
fn value_is_split_at_first_equal_sign() {
    assert_eq!(parse_query("a=b=c"), make_query(&[("a", Some("b=c"))]));
}

#[test]
fn malformed_escapes_never_fail() {
    assert_eq!(parse_path("/50%/%zz/%4"), make_path(&["50%", "%zz", "%4"]));
    assert_eq!(parse_path("/%FF"), make_path(&["\u{fffd}"]));
}

#[test]
fn escapes_decode_utf8() {
    assert_eq!(
        parse_path("/%D7%A9%D7%9C%D7%95%D7%9D"),
        make_path(&["שלום"])
    );
}

#[test]
fn render_always_begins_with_slash() {
    assert_eq!(render_path_and_query(&make_path(&[]), &None), "/");
    assert_eq!(render_path_and_query(&make_path(&[""]), &None), "/");
    assert_eq!(
        render_path_and_query(&make_path(&["hello", "world"]), &None),
        "/hello/world"
    );
}

#[test]
fn render_question_mark_only_with_query() {
    assert_eq!(
        render_path_and_query(&make_path(&["hello", "world"]), &Some(vec![])),
        "/hello/world?"
    );
}

#[test]
fn render_equal_sign_only_with_value() {
    let query = make_query(&[("foo", None), ("bar", Some("")), ("baz", Some("bin"))]);
    assert_eq!(
        render_path_and_query(&make_path(&[]), &Some(query)),
        "/?foo&bar=&baz=bin"
    );
}

#[test]
fn render_escapes_reserved_bytes() {
    let path = make_path(&["hello", "שלום", "wor/ld"]);
    let query = Some(make_query(&[("he?llo", Some("there#"))]));
    assert_eq!(
        render_path_and_query(&path, &query),
        "/hello/%D7%A9%D7%9C%D7%95%D7%9D/wor%2Fld?he?llo=there%23"
    );
}

#[test]
fn render_escapes_path_set() {
    let path = make_path(&["a b\"#<>?`{}/%\u{7f}\n"]);
    assert_eq!(
        render_path_and_query(&path, &None),
        "/a%20b%22%23%3C%3E%3F%60%7B%7D%2F%25%7F%0A"
    );
}

#[test]
fn render_escapes_query_set() {
    let query = make_query(&[("k&=%", Some("v ?`{}/&="))]);
    assert_eq!(
        render_path_and_query(&make_path(&[]), &Some(query)),
        "/?k%26%3D%25=v%20?`{}/%26%3D"
    );
}

#[test]
fn rendered_target_parses_back() {
    let path = make_path(&["a/b", "c?d", "é%41", "-"]);
    let query = Some(make_query(&[
        ("k=1", Some("v&w")),
        ("", Some("")),
        ("bare key", None),
    ]));
    let target = render_path_and_query(&path, &query);
    assert_eq!(parse_path_and_query(&target), (path, query));
}
