//! Routes: types that are read from and written to a request target.
use crate::normalize::{normalized_parse, normalized_render_path, Normalization};
use crate::percent::ascii_text;
use crate::raw::{
    parse_path, parse_path_and_query, parse_query, parsed_path, parsed_query, parsed_target,
    render_path_and_query, rendered, PairText, PathSegment, QueryPair, SegmentText,
};
use crate::text::lemma_utf8_len;
use vstd::prelude::*;
use vstd::string::*;
use vstd::utf8::*;

verus! {

/// Why reading a route failed.
#[derive(Debug, Clone, PartialEq, Eq)]
pub enum RouteError {
    /// The request target is not canonical. Carries the canonical request
    /// target to redirect to.
    NormalizationFailed(String),
    /// The request target is canonical and no route matches it.
    NoMatch,
}

/// The path and the query that `parse_strs` hands on for a path string and a
/// query string: the query is there, and empty, exactly for the empty query
/// string.
pub open spec fn parsed_strs(path: Seq<u8>, query: Seq<u8>) -> (
    Seq<SegmentText>,
    Option<Seq<PairText>>,
) {
    if query.len() == 0 {
        (parsed_path(path), Some(parsed_query(query)))
    } else {
        (parsed_path(path), None)
    }
}

/// A type which can be read from and written to the path and query of a
/// request target.
///
/// An implementation supplies `parse`, `path` and `query`; the other methods
/// are stated over whatever those three return.
pub trait Route: Sized + Clone + Send + Sync + 'static {
    /// Attempts to read a route from decoded path segments and query pairs.
    fn parse(path: Vec<PathSegment>, query: Option<Vec<QueryPair>>) -> Result<Self, RouteError>;

    /// The path segments of this route, in canonical form.
    fn path(&self) -> Vec<PathSegment>;

    /// The query pairs of this route.
    fn query(&self) -> Option<Vec<QueryPair>>;

    /// Reads a route from a request target: what `parse` makes of the
    /// target's decoded path and query.
    fn parse_str(path_and_query: &str) -> (result: Result<Self, RouteError>)
        ensures
            exists|path: Vec<PathSegment>, query: Option<Vec<QueryPair>>|
                #[trigger] call_ensures(Self::parse, (path, query), result) && (
                    path.deep_view(),
                    query.deep_view(),
                ) == parsed_target(path_and_query.spec_bytes()),
    {
        let (path, query) = parse_path_and_query(path_and_query);
        Self::parse(path, query)
    }

    /// Reads a route from a path and a query string that are given apart:
    /// what `parse` makes of the decoded path and, for the empty query
    /// string, of the query without pairs. Any other query string is not
    /// handed on.
    fn parse_strs(path: &str, query: &str) -> (result: Result<Self, RouteError>)
        ensures
            exists|segments: Vec<PathSegment>, pairs: Option<Vec<QueryPair>>|
                #[trigger] call_ensures(Self::parse, (segments, pairs), result) && (
                    segments.deep_view(),
                    pairs.deep_view(),
                ) == parsed_strs(path.spec_bytes(), query.spec_bytes()),
    {
        let segments = parse_path(path);
        let pairs = if query.is_empty() {
            Some(parse_query(query))
        } else {
            None
        };
        proof {
            if query@.len() == 0 {
                assert(encode_utf8(query@) == Seq::<u8>::empty());
            } else {
                lemma_utf8_len(query@);
            }
        }
        Self::parse(segments, pairs)
    }

    /// Writes this route as a request target: the rendering of what `path`
    /// and `query` return.
    fn render(&self) -> (target: String)
        ensures
            exists|path: Vec<PathSegment>, query: Option<Vec<QueryPair>>|
                #[trigger] call_ensures(Self::path, (self,), path) && #[trigger] call_ensures(
                    Self::query,
                    (self,),
                    query,
                ) && target@ == ascii_text(rendered(path.deep_view(), query.deep_view()))
                    && encode_utf8(target@) == rendered(path.deep_view(), query.deep_view()),
    {
        let path = self.path();
        let query = self.query();
        render_path_and_query(path.as_slice(), &query)
    }
}

/// What reading a `PlainRoute` from a decoded path and query gives.
pub open spec fn plain_reads_to(
    path: Seq<SegmentText>,
    query: Option<Seq<PairText>>,
    result: Result<PlainRoute, RouteError>,
) -> bool {
    match result {
        Ok(route) => normalized_parse(path, query) == Ok::<
            (Seq<SegmentText>, Option<Seq<PairText>>),
            Seq<char>,
        >((route.path.deep_view(), route.query.deep_view())),
        Err(RouteError::NormalizationFailed(target)) => normalized_parse(path, query) == Err::<
            (Seq<SegmentText>, Option<Seq<PairText>>),
            Seq<char>,
        >(target@),
        Err(RouteError::NoMatch) => false,
    }
}

/// A route that keeps the path and the query as they are: a convenience for
/// unstructured route handling.
#[derive(Clone, Debug, PartialEq, Eq)]
pub struct PlainRoute {
    pub path: Vec<String>,
    pub query: Option<Vec<(String, Option<String>)>>,
}

/// Copies a list of segments.
pub fn clone_segments(path: &[PathSegment]) -> (copy: Vec<PathSegment>)
    ensures
        copy.deep_view() == path.deep_view(),
{
    let mut copy: Vec<PathSegment> = Vec::new();
    let mut i: usize = 0;
    while i < path.len()
        invariant
            i <= path@.len(),
            copy@.len() == i,
            forall|j: int| 0 <= j < i ==> (#[trigger] copy@[j])@ == path@[j]@,
        decreases path@.len() - i,
    {
        copy.push(path[i].clone());
        i = i + 1;
    }
    assert(copy.deep_view() =~= path.deep_view());
    copy
}

/// Copies a list of query pairs.
pub fn clone_pairs(pairs: &[QueryPair]) -> (copy: Vec<QueryPair>)
    ensures
        copy.deep_view() == pairs.deep_view(),
{
    let mut copy: Vec<QueryPair> = Vec::new();
    let mut i: usize = 0;
    while i < pairs.len()
        invariant
            i <= pairs@.len(),
            copy@.len() == i,
            forall|j: int| 0 <= j < i ==> (#[trigger] copy@[j]).deep_view() == pairs@[j].deep_view(),
        decreases pairs@.len() - i,
    {
        let value = match &pairs[i].1 {
            None => None,
            Some(text) => Some(text.clone()),
        };
        copy.push((pairs[i].0.clone(), value));
        i = i + 1;
    }
    assert(copy.deep_view() =~= pairs.deep_view());
    copy
}

impl Route for PlainRoute {
    /// Reads the path and the query as they are, once normalized. Never
    /// fails with `NoMatch`.
    fn parse(path: Vec<PathSegment>, query: Option<Vec<QueryPair>>) -> (result: Result<
        Self,
        RouteError,
    >)
        ensures
            plain_reads_to(path.deep_view(), query.deep_view(), result),
    {
        match Normalization::default().normalize_parse(path, query) {
            Err(target) => Err(RouteError::NormalizationFailed(target)),
            Ok((path, query)) => Ok(PlainRoute { path, query }),
        }
    }

    fn path(&self) -> (path: Vec<PathSegment>)
        ensures
            path.deep_view() == normalized_render_path(self.path.deep_view()),
    {
        Normalization::default().normalize_render_path(clone_segments(self.path.as_slice()))
    }

    fn query(&self) -> (query: Option<Vec<QueryPair>>)
        ensures
            query.deep_view() == self.query.deep_view(),
    {
        match &self.query {
            None => None,
            Some(pairs) => Some(clone_pairs(pairs.as_slice())),
        }
    }
}

} // verus!
