//! What a dispatcher does with the outcome of reading a route.
//!
//! The dispatcher owns the server, the handlers and the clock; what it has
//! to do for a request follows from the outcome of reading the route, and is
//! decided here.
use crate::respond::{html, reply_with, with_status, Reply};
use crate::route::{Route, RouteError};
use crate::text::bytes_eq;
use vstd::prelude::*;
use vstd::string::*;

verus! {

/// What to do for a request.
#[derive(Clone, Debug, PartialEq, Eq)]
pub enum DispatchAction<R> {
    /// Hand the route to the application's handler.
    Dispatch(R),
    /// Answer that there is no such route.
    NotFound,
    /// Redirect to the canonical request target.
    Redirect(String),
}

/// Decides what to do for a request from the outcome of reading its route: a
/// route is dispatched, a target that is not canonical is answered with a
/// redirect to the canonical one, and a target that matches nothing is not
/// found. No outcome is fatal.
pub fn dispatch_action<R>(outcome: Result<R, RouteError>) -> (action: DispatchAction<R>)
    ensures
        action == match outcome {
            Ok(route) => DispatchAction::Dispatch(route),
            Err(RouteError::NoMatch) => DispatchAction::NotFound,
            Err(RouteError::NormalizationFailed(target)) => DispatchAction::Redirect(target),
        },
{
    match outcome {
        Ok(route) => DispatchAction::Dispatch(route),
        Err(RouteError::NoMatch) => DispatchAction::NotFound,
        Err(RouteError::NormalizationFailed(target)) => DispatchAction::Redirect(target),
    }
}

/// Reads the route of a request whose path and raw query string are given
/// apart: with a query string, `parse_strs` of the two, and without one,
/// `parse_str` of the path.
pub fn route_filter_result<R: Route>(path: &str, query: Option<&str>) -> (outcome: Result<
    R,
    RouteError,
>)
    ensures
        match query {
            Some(text) => call_ensures(R::parse_strs, (path, text), outcome),
            None => call_ensures(R::parse_str, (path,), outcome),
        },
{
    match query {
        Some(text) => R::parse_strs(path, text),
        None => R::parse_str(path),
    }
}

/// Tells whether a request is for the gRPC service that is served beside the
/// routes: its content type is exactly `application/grpc`.
pub fn is_grpc(content_type: Option<&[u8]>) -> (grpc: bool)
    ensures
        grpc == (content_type matches Some(value) && value@ == "application/grpc".spec_bytes()),
{
    match content_type {
        Some(value) => bytes_eq(value, "application/grpc".as_bytes()),
        None => false,
    }
}

/// The text of the page that answers an unknown route.
pub open spec fn not_found_text() -> Seq<char> {
    "<h1>File not found</h1>"@
}

/// The page that answers an unknown route where the application has none of
/// its own.
pub fn default_not_found() -> (reply: Reply)
    ensures
        reply@ == reply_with(
            200,
            "content-type"@,
            "text/html; charset=utf-8"@,
            not_found_text(),
        ),
{
    html("<h1>File not found</h1>".to_owned())
}

/// The answer to an unknown route for a dispatcher that reports it as such:
/// the status 404 and a short page.
pub fn not_found() -> (reply: Reply)
    ensures
        reply@ == reply_with(
            404,
            "content-type"@,
            "text/html; charset=utf-8"@,
            "<h1>Not found</h1>"@,
        ),
{
    with_status(html("<h1>Not found</h1>".to_owned()), 404)
}

/// The text before the error code in the page for an unhandled error.
pub open spec fn error_page_head() -> Seq<char> {
    "\n<!DOCTYPE html>\n<html>\n  <head>\n    <title>Unhandled error</title>\n  </head>\n  <body>\n    <h1>Unhandled error</h1>\n    <p>Error code is <code>"@
}

/// The text after the error code in the page for an unhandled error.
pub open spec fn error_page_tail() -> Seq<char> {
    "</code></p>\n  </body>\n</html>"@
}

/// The page that answers a request whose handler failed: an internal server
/// error (500) that shows `code`, under which the error was logged.
pub fn unhandled_error(code: &str) -> (reply: Reply)
    ensures
        reply@ == reply_with(
            500,
            "content-type"@,
            "text/html; charset=utf-8"@,
            error_page_head() + code@ + error_page_tail(),
        ),
{
    let mut body =
        "\n<!DOCTYPE html>\n<html>\n  <head>\n    <title>Unhandled error</title>\n  </head>\n  <body>\n    <h1>Unhandled error</h1>\n    <p>Error code is <code>".to_owned();
    body.append(code);
    body.append("</code></p>\n  </body>\n</html>");
    with_status(html(body), 500)
}

} // verus!
