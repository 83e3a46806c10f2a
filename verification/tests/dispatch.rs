use routetype::dispatch::{
    default_not_found, dispatch_action, is_grpc, not_found, route_filter_result, unhandled_error,
    DispatchAction,
};
use routetype::respond::{css, html, permanent, temporary, with_status, Reply};
use routetype::{PlainRoute, RouteError};

fn header(name: &str, value: &str) -> Vec<(String, String)> {
    vec![(name.to_owned(), value.to_owned())]
}

#[test]
fn outcomes_and_actions() {
    assert_eq!(dispatch_action(Ok(7)), DispatchAction::Dispatch(7));
    assert_eq!(
        dispatch_action::<i32>(Err(RouteError::NoMatch)),
        DispatchAction::NotFound
    );
    assert_eq!(
        dispatch_action::<i32>(Err(RouteError::NormalizationFailed("/a".to_owned()))),
        DispatchAction::Redirect("/a".to_owned())
    );
}

#[test]
fn html_reply() {
    assert_eq!(
        html("<p>hi</p>".to_owned()),
        Reply {
            status: 200,
            headers: header("content-type", "text/html; charset=utf-8"),
            body: "<p>hi</p>".to_owned(),
        }
    );
}

#[test]
fn css_reply() {
    assert_eq!(
        css("h1 { color: red }".to_owned()),
        Reply {
            status: 200,
            headers: header("content-type", "text/css; charset=utf-8"),
            body: "h1 { color: red }".to_owned(),
        }
    );
}

#[test]
fn redirect_replies() {
    assert_eq!(
        temporary("/foo/bar".to_owned()),
        Reply {
            status: 307,
            headers: header("location", "/foo/bar"),
            body: String::new(),
        }
    );
    assert_eq!(
        permanent("/foo/bar".to_owned()),
        Reply {
            status: 301,
            headers: header("location", "/foo/bar"),
            body: String::new(),
        }
    );
}

#[test]
fn not_found_reply() {
    assert_eq!(
        default_not_found(),
        html("<h1>File not found</h1>".to_owned())
    );
}

#[test]
fn unhandled_error_reply() {
    let reply = unhandled_error("1234-abcd");
    assert_eq!(reply.status, 500);
    assert_eq!(
        reply.headers,
        header("content-type", "text/html; charset=utf-8")
    );
    assert_eq!(
        reply.body,
        "\n<!DOCTYPE html>\n<html>\n  <head>\n    <title>Unhandled error</title>\n  </head>\n  <body>\n    <h1>Unhandled error</h1>\n    <p>Error code is <code>1234-abcd</code></p>\n  </body>\n</html>"
    );
    assert_eq!(with_status(reply.clone(), 500), reply);
}

#[test]
fn filter_reads_path_with_or_without_query() {
    assert_eq!(
        route_filter_result::<PlainRoute>("/a/b", None),
        Ok(PlainRoute {
            path: vec!["a".to_owned(), "b".to_owned()],
            query: None,
        })
    );
    assert_eq!(
        route_filter_result::<PlainRoute>("/a/b", Some("")),
        Ok(PlainRoute {
            path: vec!["a".to_owned(), "b".to_owned()],
            query: Some(vec![]),
        })
    );
    assert_eq!(
        route_filter_result::<PlainRoute>("/a//b", None),
        Err(RouteError::NormalizationFailed("/a/b".to_owned()))
    );
}

#[test]
fn grpc_requests_are_told_by_content_type() {
    assert!(is_grpc(Some(b"application/grpc")));
    assert!(!is_grpc(Some(b"application/grpc+proto")));
    assert!(!is_grpc(Some(b"text/html")));
    assert!(!is_grpc(Some(b"")));
    assert!(!is_grpc(None));
}

#[test]
fn not_found_with_status() {
    assert_eq!(
        not_found(),
        Reply {
            status: 404,
            headers: header("content-type", "text/html; charset=utf-8"),
            body: "<h1>Not found</h1>".to_owned(),
        }
    );
}
