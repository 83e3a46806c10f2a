use routetype::{PlainRoute, Route, RouteError};

#[test]
fn single_empty_string() {
    let plainroute = PlainRoute {
        path: vec!["".to_owned()],
        query: None,
    };
    let rendered: String = plainroute.render();
    assert_eq!(rendered, "/-");
    let parsed: PlainRoute = PlainRoute::parse_str(&rendered).unwrap();
    assert_eq!(plainroute, parsed);
}

#[test]
fn single_query_value_amp() {
    let plainroute = PlainRoute {
        path: vec![],
        query: Some(vec![("".to_owned(), Some("&".to_owned()))]),
    };
    let rendered: String = plainroute.render();
    assert_eq!(rendered, "/?=%26");
    let parsed: PlainRoute = PlainRoute::parse_str(&rendered).unwrap();
    assert_eq!(plainroute, parsed);
}

#[test]
fn single_query_value_equal() {
    let plainroute = PlainRoute {
        path: vec![],
        query: Some(vec![("".to_owned(), Some("=".to_owned()))]),
    };
    let rendered: String = plainroute.render();
    assert_eq!(rendered, "/?=%3D");
    let parsed: PlainRoute = PlainRoute::parse_str(&rendered).unwrap();
    assert_eq!(plainroute, parsed);
}

#[test]
fn looks_url_encoded() {
    let plainroute = PlainRoute {
        path: vec![],
        query: Some(vec![("".to_owned(), Some("%00".to_owned()))]),
    };
    let rendered: String = plainroute.render();
    assert_eq!(rendered, "/?=%2500");
    let parsed: PlainRoute = PlainRoute::parse_str(&rendered).unwrap();
    assert_eq!(plainroute, parsed);
}

#[test]
fn double_slash() {
    let parsed = PlainRoute::parse_str("/foo//bar");
    assert_eq!(
        parsed,
        Err(RouteError::NormalizationFailed("/foo/bar".to_owned()))
    )
}

#[test]
fn trailing_slash() {
    let parsed = PlainRoute::parse_str("/foo/bar/");
    assert_eq!(
        parsed,
        Err(RouteError::NormalizationFailed("/foo/bar".to_owned()))
    )
}

fn round_trip(path: &[&str], query: Option<Vec<(&str, Option<&str>)>>) {
    let route = PlainRoute {
        path: path.iter().map(|s| s.to_string()).collect(),
        query: query.map(|q| {
            q.into_iter()
                .map(|(k, v)| (k.to_string(), v.map(|v| v.to_string())))
                .collect()
        }),
    };
    let rendered = route.render();
    assert_eq!(PlainRoute::parse_str(&rendered), Ok(route));
}

#[test]
fn round_trip_plain_paths() {
    round_trip(&[], None);
    round_trip(&["foo", "bar"], None);
    round_trip(&["", "", ""], None);
    round_trip(&["-", "--", "---", "----", "-----"], None);
    round_trip(&["a/b", "?", "%2F", "שלום", " ", "\u{0}"], None);
}

#[test]
fn round_trip_plain_queries() {
    round_trip(&[], Some(vec![]));
    round_trip(&[], Some(vec![("a", None), ("a", Some("")), ("a", Some("b"))]));
    round_trip(&["x"], Some(vec![("", None), ("", None)]));
    round_trip(&["x"], Some(vec![("", Some(""))]));
    round_trip(&["x"], Some(vec![("k&", Some("=v")), ("%", Some("#"))]));
}

#[test]
fn bare_empty_key_renders_as_empty_query() {
    let route = PlainRoute {
        path: vec![],
        query: Some(vec![("".to_owned(), None)]),
    };
    assert_eq!(route.render(), "/?");
    assert_eq!(
        PlainRoute::parse_str("/?"),
        Ok(PlainRoute {
            path: vec![],
            query: Some(vec![]),
        })
    );
}

#[test]
fn redirect_target_keeps_query() {
    assert_eq!(
        PlainRoute::parse_str("/foo//bar/?a=b&c"),
        Err(RouteError::NormalizationFailed("/foo/bar?a=b&c".to_owned()))
    );
    assert_eq!(
        PlainRoute::parse_str("//"),
        Err(RouteError::NormalizationFailed("/".to_owned()))
    );
}

#[test]
fn rendered_route_is_canonical() {
    let route = PlainRoute {
        path: vec!["".to_owned(), "a".to_owned(), "".to_owned()],
        query: Some(vec![("".to_owned(), None)]),
    };
    let rendered = route.render();
    assert_eq!(rendered, "/-/a/-?");
    assert!(PlainRoute::parse_str(&rendered).is_ok());
}

#[test]
fn parse_strs_takes_path_and_query_apart() {
    assert_eq!(
        PlainRoute::parse_strs("/foo/bar", ""),
        Ok(PlainRoute {
            path: vec!["foo".to_owned(), "bar".to_owned()],
            query: Some(vec![]),
        })
    );
    assert_eq!(
        PlainRoute::parse_strs("/foo/bar", "a=b"),
        Ok(PlainRoute {
            path: vec!["foo".to_owned(), "bar".to_owned()],
            query: None,
        })
    );
}

#[test]
fn redirect_target_is_canonical() {
    for target in ["//", "/a//b/", "///-//--/?x=%2F&y", "/%2F//"] {
        match PlainRoute::parse_str(target) {
            Err(RouteError::NormalizationFailed(canonical)) => {
                assert!(PlainRoute::parse_str(&canonical).is_ok(), "{}", canonical);
            }
            other => panic!("{:?}", other),
        }
    }
    assert_eq!(
        PlainRoute::parse_str("///-//--/?x=%2F&y"),
        Err(RouteError::NormalizationFailed("/-/--?x=/&y".to_owned()))
    );
}

#[test]
fn round_trip_every_single_character_below_u0100() {
    for code in 0u8..=255 {
        let text = char::from(code).to_string();
        round_trip(&[&text], Some(vec![(&text, Some(&text)), (&text, None)]));
        let doubled = format!("{}{}", text, text);
        round_trip(&[&doubled, &text], None);
    }
}

#[test]
fn round_trip_percent_sequences() {
    for text in ["%", "%%", "%2", "%2F", "%2f", "%zz", "100%", "%25", "%e9", "a%20b"] {
        round_trip(&[text], Some(vec![(text, Some(text))]));
    }
}
