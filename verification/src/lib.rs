//! Typed routes for HTTP request targets.
//!
//! A request target (`path[?query]`) is lexed into percent-decoded path
//! segments and query pairs ([`raw`], [`percent`]), checked against the
//! canonical form ([`normalize`]), grouped by query key ([`query`]) and
//! matched against the route templates of the application in their declared
//! order ([`template`], [`matcher`]). In the other direction a route is
//! written as its canonical request target ([`renderer`]). Templates are
//! compiled from route strings such as `hello/{name}` ([`compile`]); field
//! values are texts, integers and booleans ([`piece`]).
//!
//! [`route`] holds the trait of types that are read from and written to a
//! request target, with an unstructured route that implements it;
//! [`dispatch`] and [`respond`] hold what a dispatcher decides and answers.
//! [`round_trip`] proves that what is written is canonical and reads back as
//! what it was written for.
pub mod compile;
pub mod dispatch;
pub mod matcher;
pub mod normalize;
pub mod percent;
pub mod piece;
pub mod query;
pub mod raw;
pub mod renderer;
pub mod respond;
pub mod round_trip;
pub mod route;
pub mod template;
pub mod text;

pub use crate::compile::{FieldDecl, TemplateError, VariantFields};
pub use crate::piece::{Piece, PieceKind, RoutePiece};
pub use crate::query::QueryMap;
pub use crate::raw::{PathSegment, QueryPair};
pub use crate::route::{PlainRoute, Route, RouteError};
pub use crate::template::{PieceSpec, QuerySpec, RouteTable, RouteTemplate, RouteValue};
