use routetype::normalize::{is_all_dashes, Normalization};

fn helper(path: &[&'static str]) -> Result<Vec<String>, String> {
    let (p, q) = Normalization::default()
        .normalize_parse(path.iter().map(|s| s.to_string()).collect(), None)?;
    assert!(q.is_none());
    Ok(p)
}

#[test]
fn basics() {
    assert_eq!(helper(&[]), Ok(vec![]));
    assert_eq!(helper(&[""]), Err("/".to_owned()));
    assert_eq!(
        helper(&["foo", "bar"]),
        Ok(vec!["foo".to_owned(), "bar".to_owned()])
    );
    assert_eq!(helper(&["foo", "bar", ""]), Err("/foo/bar".to_owned()));
}

fn dashes(n: usize) -> String {
    "-".repeat(n)
}

#[test]
fn dash_runs_gain_one_dash_when_rendered() {
    for n in 0..8 {
        let rendered = Normalization::default().normalize_render_path(vec![dashes(n)]);
        assert_eq!(rendered, vec![dashes(n + 1)]);
    }
}

#[test]
fn dash_runs_lose_one_dash_when_parsed() {
    for n in 0..8 {
        let parsed = Normalization::default().normalize_parse(vec![dashes(n + 1)], None);
        assert_eq!(parsed, Ok((vec![dashes(n)], None)));
    }
}

#[test]
fn other_segments_are_left_alone() {
    let path = vec!["a-".to_owned(), "-a".to_owned(), "–".to_owned(), "a".to_owned()];
    assert_eq!(
        Normalization::default().normalize_render_path(path.clone()),
        path
    );
    assert_eq!(
        Normalization::default().normalize_parse(path.clone(), None),
        Ok((path, None))
    );
}

#[test]
fn empty_segments_are_dropped_from_redirect_target() {
    let path = vec![
        "".to_owned(),
        "foo".to_owned(),
        "".to_owned(),
        "-".to_owned(),
        "".to_owned(),
    ];
    let query = Some(vec![("a".to_owned(), Some("b c".to_owned()))]);
    assert_eq!(
        Normalization::default().normalize_parse(path, query),
        Err("/foo/-?a=b%20c".to_owned())
    );
}

#[test]
fn query_passes_through_unchanged() {
    let query = Some(vec![("-".to_owned(), Some("--".to_owned()))]);
    assert_eq!(
        Normalization::default().normalize_parse(vec!["--".to_owned()], query.clone()),
        Ok((vec!["-".to_owned()], query))
    );
}

#[test]
fn all_dashes_check() {
    assert!(is_all_dashes(""));
    assert!(is_all_dashes("-"));
    assert!(is_all_dashes("-----"));
    assert!(!is_all_dashes("--a"));
    assert!(!is_all_dashes("–"));
}
