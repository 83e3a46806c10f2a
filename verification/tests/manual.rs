use routetype::raw::{PathSegment, QueryPair};
use routetype::route::{Route, RouteError};

#[derive(Clone, Debug, PartialEq, Eq)]
struct BoringRoute;

impl Route for BoringRoute {
    fn parse(path: Vec<PathSegment>, _query: Option<Vec<QueryPair>>) -> Result<Self, RouteError> {
        match path.into_iter().next() {
            None => Ok(Self),
            Some(_) => Err(RouteError::NoMatch),
        }
    }

    fn path(&self) -> Vec<PathSegment> {
        vec![]
    }

    fn query(&self) -> Option<Vec<QueryPair>> {
        None
    }
}

#[test]
fn boring_parse_render() {
    assert_eq!(BoringRoute::parse_str(""), Ok(BoringRoute));
    assert_eq!(BoringRoute::parse_str("/"), Ok(BoringRoute));
    assert_eq!(BoringRoute.path(), Vec::<String>::new());
    assert_eq!(BoringRoute.query(), None);
}

#[test]
fn boring_parse_failure() {
    assert_eq!(BoringRoute::parse_str("hello"), Err(RouteError::NoMatch));
}
