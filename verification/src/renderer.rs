//! Writing a route: the canonical request target of a variant with the
//! values of its fields.
use crate::normalize::{normalized_render_path, Normalization};
use crate::percent::ascii_text;
use crate::piece::{kinds_of, written_piece, Piece, PieceValue};
use crate::raw::{render_path_and_query, rendered, PairText, PathSegment, QueryPair, SegmentText};
use crate::template::{
    fits, is_route_of, lemma_fits_split, path_kinds, query_kinds, PieceSpec, PieceSpecModel,
    QuerySpecModel, RouteTable, RouteTemplate, RouteValue, TemplateModel,
};
use vstd::prelude::*;
use vstd::string::*;
use vstd::utf8::*;

verus! {

/// The segments written for the path entries `specs` with the field values
/// `fields`: a literal entry gives its text, a field entry the written form
/// of the next value.
pub open spec fn written_segments(specs: Seq<PieceSpecModel>, fields: Seq<PieceValue>) -> Seq<
    SegmentText,
>
    decreases specs.len(),
{
    if specs.len() == 0 {
        Seq::empty()
    } else {
        match specs[0] {
            PieceSpecModel::Literal(text) => seq![text] + written_segments(specs.skip(1), fields),
            PieceSpecModel::Field(_) => seq![written_piece(fields[0])] + written_segments(
                specs.skip(1),
                fields.skip(1),
            ),
        }
    }
}

/// The pairs written for the query entries `specs` with the field values
/// `fields`: the key alone for an entry without a value, the key with the
/// literal text, or the key with the written form of the next value.
pub open spec fn written_pairs(specs: Seq<QuerySpecModel>, fields: Seq<PieceValue>) -> Seq<PairText>
    decreases specs.len(),
{
    if specs.len() == 0 {
        Seq::empty()
    } else {
        let key = specs[0].key;
        match specs[0].value {
            None => seq![(key, None::<Seq<char>>)] + written_pairs(specs.skip(1), fields),
            Some(PieceSpecModel::Literal(text)) => seq![(key, Some(text))] + written_pairs(
                specs.skip(1),
                fields,
            ),
            Some(PieceSpecModel::Field(_)) => seq![(key, Some(written_piece(fields[0])))]
                + written_pairs(specs.skip(1), fields.skip(1)),
        }
    }
}

/// The canonical path of a route of this template.
pub open spec fn route_path(template: TemplateModel, fields: Seq<PieceValue>) -> Seq<SegmentText> {
    normalized_render_path(written_segments(template.path, fields))
}

/// The query of a route of this template: none where the template has no
/// query entries.
pub open spec fn route_query(template: TemplateModel, fields: Seq<PieceValue>) -> Option<
    Seq<PairText>,
> {
    let pairs = written_pairs(template.query, fields.skip(path_kinds(template.path).len() as int));
    if pairs.len() == 0 {
        None
    } else {
        Some(pairs)
    }
}

/// The request target of a route of this template.
pub open spec fn route_target(template: TemplateModel, fields: Seq<PieceValue>) -> Seq<u8> {
    rendered(route_path(template, fields), route_query(template, fields))
}

impl RouteTemplate {
    /// The canonical path segments of the route of this template with the
    /// field values `fields`.
    pub fn path(&self, fields: &[Piece]) -> (path: Vec<PathSegment>)
        requires
            fits(self@, fields.deep_view()),
        ensures
            path.deep_view() == route_path(self@, fields.deep_view()),
    {
        let ghost values = fields.deep_view();
        let ghost kinds = kinds_of(values);
        let mut segments: Vec<PathSegment> = Vec::new();
        let mut k: usize = 0;
        let mut i: usize = 0;
        proof {
            lemma_fits_split(self@, values);
            assert(self@.path.skip(0) == self@.path);
            assert(values.skip(0) == values);
            let n = path_kinds(self@.path).len() as int;
            assert(kinds.take(n).skip(0) == kinds.take(n));
            assert(segments.deep_view() + written_segments(self@.path, values)
                == written_segments(self@.path, values));
        }
        while i < self.path.len()
            invariant
                i <= self.path@.len(),
                k <= fields@.len(),
                k <= path_kinds(self@.path).len() <= fields@.len(),
                values == fields.deep_view(),
                kinds == kinds_of(values),
                kinds.take(path_kinds(self@.path).len() as int).skip(k as int) == path_kinds(
                    self@.path.skip(i as int),
                ),
                written_segments(self@.path, values) == segments.deep_view() + written_segments(
                    self@.path.skip(i as int),
                    values.skip(k as int),
                ),
            decreases self.path@.len() - i,
        {
            let ghost done = segments.deep_view();
            let ghost n = path_kinds(self@.path).len() as int;
            proof {
                assert(self@.path.skip(i as int).skip(1) == self@.path.skip(i + 1));
                assert(self@.path.skip(i as int)[0] == self.path@[i as int]@);
            }
            match &self.path[i] {
                PieceSpec::Literal(text) => {
                    segments.push(text.clone());
                    proof {
                        let rest = written_segments(self@.path.skip(i + 1), values.skip(k as int));
                        assert(segments.deep_view() == done.push(text@));
                        assert(done + (seq![text@] + rest) == done.push(text@) + rest);
                    }
                },
                PieceSpec::Field(kind) => {
                    proof {
                        assert(kinds.take(n).skip(k as int).len() > 0);
                        assert(values.skip(k as int)[0] == values[k as int]);
                        assert(values.skip(k as int).skip(1) == values.skip(k + 1));
                        assert(kinds.take(n).skip(k as int).skip(1) == kinds.take(n).skip(k + 1));
                        assert((seq![*kind] + path_kinds(self@.path.skip(i + 1))).skip(1)
                            == path_kinds(self@.path.skip(i + 1)));
                    }
                    let text = fields[k].render();
                    segments.push(text);
                    proof {
                        let rest = written_segments(self@.path.skip(i + 1), values.skip(k + 1));
                        let piece = written_piece(values[k as int]);
                        assert(segments.deep_view() == done.push(piece));
                        assert(done + (seq![piece] + rest) == done.push(piece) + rest);
                    }
                    k = k + 1;
                },
            }
            i = i + 1;
        }
        proof {
            assert(segments.deep_view() + Seq::<SegmentText>::empty() == segments.deep_view());
        }
        Normalization::default().normalize_render_path(segments)
    }

    /// The query pairs of the route of this template with the field values
    /// `fields`: `None` where the template has no query entries.
    pub fn query(&self, fields: &[Piece]) -> (query: Option<Vec<QueryPair>>)
        requires
            fits(self@, fields.deep_view()),
        ensures
            query.deep_view() == route_query(self@, fields.deep_view()),
    {
        let ghost values = fields.deep_view();
        let ghost kinds = kinds_of(values);
        let first = self.path_field_count();
        let ghost tail = values.skip(first as int);
        let mut pairs: Vec<QueryPair> = Vec::new();
        let mut k: usize = first;
        let mut j: usize = 0;
        proof {
            lemma_fits_split(self@, values);
            assert(self@.query.skip(0) == self@.query);
            assert(tail.skip(0) == tail);
            assert(pairs.deep_view() + written_pairs(self@.query, tail) == written_pairs(
                self@.query,
                tail,
            ));
        }
        while j < self.query.len()
            invariant
                j <= self.query@.len(),
                first <= k <= fields@.len(),
                values == fields.deep_view(),
                kinds == kinds_of(values),
                tail == values.skip(first as int),
                kinds.skip(k as int) == query_kinds(self@.query.skip(j as int)),
                written_pairs(self@.query, tail) == pairs.deep_view() + written_pairs(
                    self@.query.skip(j as int),
                    tail.skip(k - first),
                ),
            decreases self.query@.len() - j,
        {
            let ghost done = pairs.deep_view();
            proof {
                assert(self@.query.skip(j as int).skip(1) == self@.query.skip(j + 1));
                assert(self@.query.skip(j as int)[0] == self.query@[j as int]@);
            }
            let key = self.query[j].key.clone();
            match &self.query[j].value {
                None => {
                    pairs.push((key, None));
                    proof {
                        let rest = written_pairs(self@.query.skip(j + 1), tail.skip(k - first));
                        let pair = (key@, None::<Seq<char>>);
                        assert(pairs.deep_view() == done.push(pair));
                        assert(done + (seq![pair] + rest) == done.push(pair) + rest);
                    }
                },
                Some(PieceSpec::Literal(text)) => {
                    pairs.push((key, Some(text.clone())));
                    proof {
                        let rest = written_pairs(self@.query.skip(j + 1), tail.skip(k - first));
                        let pair = (key@, Some(text@));
                        assert(pairs.deep_view() == done.push(pair));
                        assert(done + (seq![pair] + rest) == done.push(pair) + rest);
                    }
                },
                Some(PieceSpec::Field(kind)) => {
                    proof {
                        assert(kinds.skip(k as int).len() > 0);
                        assert(tail.skip(k - first)[0] == values[k as int]);
                        assert(tail.skip(k - first).skip(1) == tail.skip(k + 1 - first));
                        assert(kinds.skip(k as int).skip(1) == kinds.skip(k + 1));
                        assert((seq![*kind] + query_kinds(self@.query.skip(j + 1))).skip(1)
                            == query_kinds(self@.query.skip(j + 1)));
                    }
                    let text = fields[k].render();
                    pairs.push((key, Some(text)));
                    proof {
                        let rest = written_pairs(
                            self@.query.skip(j + 1),
                            tail.skip(k + 1 - first),
                        );
                        let pair = (key@, Some(written_piece(values[k as int])));
                        assert(pairs.deep_view() == done.push(pair));
                        assert(done + (seq![pair] + rest) == done.push(pair) + rest);
                    }
                    k = k + 1;
                },
            }
            j = j + 1;
        }
        proof {
            assert(pairs.deep_view() + Seq::<PairText>::empty() == pairs.deep_view());
        }
        if pairs.len() == 0 {
            None
        } else {
            Some(pairs)
        }
    }

    /// The request target of the route of this template with the field
    /// values `fields`.
    pub fn render(&self, fields: &[Piece]) -> (target: String)
        requires
            fits(self@, fields.deep_view()),
        ensures
            target@ == ascii_text(route_target(self@, fields.deep_view())),
            encode_utf8(target@) == route_target(self@, fields.deep_view()),
    {
        let path = self.path(fields);
        let query = self.query(fields);
        render_path_and_query(path.as_slice(), &query)
    }
}

impl RouteTable {
    /// The canonical path segments of `route`.
    pub fn path(&self, route: &RouteValue) -> (path: Vec<PathSegment>)
        requires
            is_route_of(self.templates.deep_view(), route@),
        ensures
            path.deep_view() == route_path(self.templates.deep_view()[route@.variant], route@.fields),
    {
        self.templates[route.variant].path(route.fields.as_slice())
    }

    /// The query pairs of `route`, `None` where its template has no query
    /// entries.
    pub fn query(&self, route: &RouteValue) -> (query: Option<Vec<QueryPair>>)
        requires
            is_route_of(self.templates.deep_view(), route@),
        ensures
            query.deep_view() == route_query(self.templates.deep_view()[route@.variant], route@.fields),
    {
        self.templates[route.variant].query(route.fields.as_slice())
    }

    /// Writes `route` as its canonical request target.
    pub fn render(&self, route: &RouteValue) -> (target: String)
        requires
            is_route_of(self.templates.deep_view(), route@),
        ensures
            target@ == ascii_text(
                route_target(self.templates.deep_view()[route@.variant], route@.fields),
            ),
            encode_utf8(target@) == route_target(
                self.templates.deep_view()[route@.variant],
                route@.fields,
            ),
    {
        self.templates[route.variant].render(route.fields.as_slice())
    }
}

} // verus!
