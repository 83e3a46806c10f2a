//! Plain descriptions of the responses that a dispatcher sends.
//!
//! A reply is data: a status code, header fields and a body. Turning it into
//! the response type of an HTTP server is left to the code that owns the
//! server.
use vstd::prelude::*;
use vstd::string::*;

verus! {

/// A response, as plain values.
#[derive(Clone, Debug, PartialEq, Eq)]
pub struct Reply {
    /// The status code.
    pub status: u16,
    /// The header fields, as names and values.
    pub headers: Vec<(String, String)>,
    /// The body.
    pub body: String,
}

/// What a reply is in contracts.
pub struct ReplyModel {
    pub status: int,
    pub headers: Seq<(Seq<char>, Seq<char>)>,
    pub body: Seq<char>,
}

impl View for Reply {
    type V = ReplyModel;

    open spec fn view(&self) -> ReplyModel {
        ReplyModel {
            status: self.status as int,
            headers: self.headers.deep_view(),
            body: self.body@,
        }
    }
}

/// A reply with the status `status`, the single header field `name: value`,
/// and the body `body`.
pub open spec fn reply_with(status: int, name: Seq<char>, value: Seq<char>, body: Seq<char>)
    -> ReplyModel {
    ReplyModel { status, headers: seq![(name, value)], body }
}

/// Builds a reply with a single header field.
fn with_header(status: u16, name: &str, value: String, body: String) -> (reply: Reply)
    ensures
        reply@ == reply_with(status as int, name@, value@, body@),
{
    let mut headers: Vec<(String, String)> = Vec::new();
    headers.push((name.to_owned(), value));
    let reply = Reply { status, headers, body };
    assert(reply@.headers == seq![(name@, value@)]);
    reply
}

/// A successful reply with `body` as an HTML document.
pub fn html(body: String) -> (reply: Reply)
    ensures
        reply@ == reply_with(200, "content-type"@, "text/html; charset=utf-8"@, body@),
{
    with_header(200, "content-type", "text/html; charset=utf-8".to_owned(), body)
}

/// A successful reply with `body` as a style sheet.
pub fn css(body: String) -> (reply: Reply)
    ensures
        reply@ == reply_with(200, "content-type"@, "text/css; charset=utf-8"@, body@),
{
    with_header(200, "content-type", "text/css; charset=utf-8".to_owned(), body)
}

/// A temporary redirect (307) to `dest`, without a body.
pub fn temporary(dest: String) -> (reply: Reply)
    ensures
        reply@ == reply_with(307, "location"@, dest@, Seq::<char>::empty()),
{
    with_header(307, "location", dest, String::new())
}

/// A permanent redirect (301) to `dest`, without a body.
pub fn permanent(dest: String) -> (reply: Reply)
    ensures
        reply@ == reply_with(301, "location"@, dest@, Seq::<char>::empty()),
{
    with_header(301, "location", dest, String::new())
}

/// The reply with `status` in place of the status of `reply`.
pub fn with_status(reply: Reply, status: u16) -> (changed: Reply)
    ensures
        changed@ == (ReplyModel { status: status as int, ..reply@ }),
{
    Reply { status, headers: reply.headers, body: reply.body }
}

} // verus!
