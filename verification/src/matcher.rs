//! Reading a route: the first template, in declared order, that matches a
//! request.
//!
//! A template matches a normalized path when each of its path entries meets
//! its segment and no segment is left over, and a grouped query when each of
//! its query entries finds what it asks for. Templates are tried in the
//! order of their declaration and the first match wins; a field that does
//! not convert fails its own template only.
use crate::normalize::{normalized_parse, Normalization};
use crate::piece::{read_piece, Piece, PieceValue};
use crate::query::{grouped, pairs_of, QueryMap};
use crate::raw::{parse_path_and_query, parsed_target, PathSegment, QueryPair, SegmentText};
use crate::route::RouteError;
use crate::template::{
    PieceSpec, PieceSpecModel, QuerySpec, QuerySpecModel, RouteModel, RouteTable, RouteTemplate,
    RouteValue, TemplateModel,
};
use crate::text::text_eq;
use vstd::prelude::*;
use vstd::string::*;

verus! {

/// What a failure to read a route is in contracts.
pub enum RouteFailure {
    NormalizationFailed(Seq<char>),
    NoMatch,
}

/// What the result of reading a route is in contracts.
pub open spec fn result_view(result: Result<RouteValue, RouteError>) -> Result<
    RouteModel,
    RouteFailure,
> {
    match result {
        Ok(route) => Ok(route@),
        Err(RouteError::NormalizationFailed(target)) => Err(
            RouteFailure::NormalizationFailed(target@),
        ),
        Err(RouteError::NoMatch) => Err(RouteFailure::NoMatch),
    }
}

/// The field values that the segments `segments` give the path entries
/// `specs`: there are as many segments as entries, each literal entry meets
/// its own text, and each field entry a text that writes a value of its
/// kind. Otherwise the path does not match.
pub open spec fn path_fields(specs: Seq<PieceSpecModel>, segments: Seq<SegmentText>) -> Option<
    Seq<PieceValue>,
>
    decreases specs.len(),
{
    if specs.len() != segments.len() {
        None
    } else if specs.len() == 0 {
        Some(Seq::empty())
    } else {
        let rest = path_fields(specs.skip(1), segments.skip(1));
        match specs[0] {
            PieceSpecModel::Literal(text) => if segments[0] == text {
                rest
            } else {
                None
            },
            PieceSpecModel::Field(kind) => match (read_piece(kind, segments[0]), rest) {
                (Some(value), Some(values)) => Some(seq![value] + values),
                _ => None,
            },
        }
    }
}

/// A path matches as a whole or not at all: there are exactly as many
/// segments as the template has path entries, never more and never fewer.
pub proof fn lemma_path_length_is_exact(specs: Seq<PieceSpecModel>, segments: Seq<SegmentText>)
    requires
        path_fields(specs, segments) is Some,
    ensures
        segments.len() == specs.len(),
{
}

/// The value that a grouped query gives `key`, where it gives exactly one.
pub open spec fn single_value(query: Map<Seq<char>, (nat, Seq<Seq<char>>)>, key: Seq<char>)
    -> Option<Seq<char>> {
    if query.contains_key(key) && query[key].1.len() == 1 {
        Some(query[key].1[0])
    } else {
        None
    }
}

/// The field values that the grouped query `query` gives the query entries
/// `specs`: a key without a value entry is there, a key with a literal entry
/// has that text as its single value, and a key with a field entry has a
/// single value that writes a value of the field's kind. Otherwise the query
/// does not match. Keys that no entry names are not looked at.
pub open spec fn query_fields(
    specs: Seq<QuerySpecModel>,
    query: Map<Seq<char>, (nat, Seq<Seq<char>>)>,
) -> Option<Seq<PieceValue>>
    decreases specs.len(),
{
    if specs.len() == 0 {
        Some(Seq::empty())
    } else {
        let rest = query_fields(specs.skip(1), query);
        let key = specs[0].key;
        match specs[0].value {
            None => if query.contains_key(key) {
                rest
            } else {
                None
            },
            Some(PieceSpecModel::Literal(text)) => if single_value(query, key) == Some(text) {
                rest
            } else {
                None
            },
            Some(PieceSpecModel::Field(kind)) => match single_value(query, key) {
                Some(text) => match (read_piece(kind, text), rest) {
                    (Some(value), Some(values)) => Some(seq![value] + values),
                    _ => None,
                },
                None => None,
            },
        }
    }
}

/// True when `key` is the key of one of the entries `specs`.
pub open spec fn names_key(specs: Seq<QuerySpecModel>, key: Seq<char>) -> bool {
    exists|i: int| 0 <= i < specs.len() && (#[trigger] specs[i]).key == key
}

/// Query keys that no entry of the template names are not looked at: two
/// queries that say the same of every key that is named match alike.
pub proof fn lemma_other_keys_are_ignored(
    specs: Seq<QuerySpecModel>,
    first: Map<Seq<char>, (nat, Seq<Seq<char>>)>,
    second: Map<Seq<char>, (nat, Seq<Seq<char>>)>,
)
    requires
        forall|key: Seq<char>| #[trigger]
            names_key(specs, key) ==> first.contains_key(key) == second.contains_key(key) && (
            first.contains_key(key) ==> first[key] == second[key]),
    ensures
        query_fields(specs, first) == query_fields(specs, second),
    decreases specs.len(),
{
    if specs.len() > 0 {
        let rest = specs.skip(1);
        assert(names_key(specs, specs[0].key));
        assert forall|key: Seq<char>| #[trigger] names_key(rest, key) implies first.contains_key(
            key,
        ) == second.contains_key(key) && (first.contains_key(key) ==> first[key]
            == second[key]) by {
            let i = choose|i: int| 0 <= i < rest.len() && (#[trigger] rest[i]).key == key;
            assert(specs[i + 1].key == key);
            assert(names_key(specs, key));
        }
        lemma_other_keys_are_ignored(rest, first, second);
    }
}

/// The field values with which the template matches a normalized path and a
/// grouped query: those of the path, then those of the query.
pub open spec fn template_fields(
    template: TemplateModel,
    segments: Seq<SegmentText>,
    query: Map<Seq<char>, (nat, Seq<Seq<char>>)>,
) -> Option<Seq<PieceValue>> {
    match (path_fields(template.path, segments), query_fields(template.query, query)) {
        (Some(first), Some(second)) => Some(first + second),
        _ => None,
    }
}

/// The first template from position `from` on that matches, with the field
/// values it matches with.
pub open spec fn first_match_from(
    templates: Seq<TemplateModel>,
    segments: Seq<SegmentText>,
    query: Map<Seq<char>, (nat, Seq<Seq<char>>)>,
    from: int,
) -> Option<RouteModel>
    decreases templates.len() - from,
{
    if from < 0 || from >= templates.len() {
        None
    } else {
        match template_fields(templates[from], segments, query) {
            Some(fields) => Some(RouteModel { variant: from, fields }),
            None => first_match_from(templates, segments, query, from + 1),
        }
    }
}

/// The route that a normalized path and a grouped query stand for: the first
/// template in declared order that matches, where one does.
pub open spec fn first_match(
    templates: Seq<TemplateModel>,
    segments: Seq<SegmentText>,
    query: Map<Seq<char>, (nat, Seq<Seq<char>>)>,
) -> Option<RouteModel> {
    first_match_from(templates, segments, query, 0)
}

/// From position `from` on, the match is of the first template that
/// matches, if any does.
pub proof fn lemma_first_match_from(
    templates: Seq<TemplateModel>,
    segments: Seq<SegmentText>,
    query: Map<Seq<char>, (nat, Seq<Seq<char>>)>,
    from: int,
)
    requires
        0 <= from,
    ensures
        match first_match_from(templates, segments, query, from) {
            Some(route) => {
                &&& from <= route.variant < templates.len()
                &&& template_fields(templates[route.variant], segments, query) == Some(
                    route.fields,
                )
                &&& forall|k: int|
                    from <= k < route.variant ==> template_fields(
                        #[trigger] templates[k],
                        segments,
                        query,
                    ) is None
            },
            None => forall|k: int|
                from <= k < templates.len() ==> template_fields(
                    #[trigger] templates[k],
                    segments,
                    query,
                ) is None,
        },
    decreases templates.len() - from,
{
    if from < templates.len() {
        lemma_first_match_from(templates, segments, query, from + 1);
    }
}

/// The route that is read is of the first template, in declared order, that
/// matches: no template before it matches, and its field values are those
/// that its template matches with. No route is read exactly when no template
/// matches.
pub proof fn lemma_first_match(
    templates: Seq<TemplateModel>,
    segments: Seq<SegmentText>,
    query: Map<Seq<char>, (nat, Seq<Seq<char>>)>,
)
    ensures
        match first_match(templates, segments, query) {
            Some(route) => {
                &&& 0 <= route.variant < templates.len()
                &&& template_fields(templates[route.variant], segments, query) == Some(
                    route.fields,
                )
                &&& forall|k: int|
                    0 <= k < route.variant ==> template_fields(
                        #[trigger] templates[k],
                        segments,
                        query,
                    ) is None
            },
            None => forall|k: int|
                0 <= k < templates.len() ==> template_fields(
                    #[trigger] templates[k],
                    segments,
                    query,
                ) is None,
        },
{
    lemma_first_match_from(templates, segments, query, 0);
}

/// Of two templates that both match the same input, the one declared first
/// decides: the route that is read is never of the later one.
pub proof fn lemma_declaration_order(
    templates: Seq<TemplateModel>,
    segments: Seq<SegmentText>,
    query: Map<Seq<char>, (nat, Seq<Seq<char>>)>,
    earlier: int,
    later: int,
)
    requires
        0 <= earlier < later < templates.len(),
        template_fields(templates[earlier], segments, query) is Some,
        template_fields(templates[later], segments, query) is Some,
    ensures
        first_match(templates, segments, query) matches Some(route) && route.variant <= earlier,
{
    lemma_first_match(templates, segments, query);
}

/// Where a template matches and none before it does, the route that is read
/// is of that template.
pub proof fn lemma_first_match_at(
    templates: Seq<TemplateModel>,
    segments: Seq<SegmentText>,
    query: Map<Seq<char>, (nat, Seq<Seq<char>>)>,
    variant: int,
)
    requires
        0 <= variant < templates.len(),
        template_fields(templates[variant], segments, query) is Some,
        forall|k: int|
            0 <= k < variant ==> template_fields(#[trigger] templates[k], segments, query) is None,
    ensures
        first_match(templates, segments, query) == Some(
            RouteModel {
                variant,
                fields: template_fields(templates[variant], segments, query)->0,
            },
        ),
{
    lemma_first_match(templates, segments, query);
}

/// What reading the request target `target` against the templates gives:
/// the redirect target where the path is not canonical, else the first
/// match, else no match.
pub open spec fn route_of(templates: Seq<TemplateModel>, target: Seq<u8>) -> Result<
    RouteModel,
    RouteFailure,
> {
    let parsed = parsed_target(target);
    match normalized_parse(parsed.0, parsed.1) {
        Err(canonical) => Err(RouteFailure::NormalizationFailed(canonical)),
        Ok(parts) => match first_match(templates, parts.0, grouped(pairs_of(parts.1))) {
            Some(route) => Ok(route),
            None => Err(RouteFailure::NoMatch),
        },
    }
}

/// Matches path segments against the path entries of a template.
fn match_path(specs: &[PieceSpec], path: &[PathSegment], fields: &mut Vec<Piece>) -> (matched:
    bool)
    ensures
        match path_fields(specs.deep_view(), path.deep_view()) {
            Some(values) => matched && final(fields).deep_view() == old(fields).deep_view()
                + values,
            None => !matched,
        },
{
    if specs.len() != path.len() {
        return false;
    }
    let ghost segments = path.deep_view();
    let ghost before = fields.deep_view();
    let ghost mut found: Seq<PieceValue> = Seq::empty();
    let mut i: usize = 0;
    proof {
        assert(specs.deep_view().skip(0) == specs.deep_view());
        assert(segments.skip(0) == segments);
        assert(before + found == before);
    }
    while i < specs.len()
        invariant
            i <= specs@.len(),
            specs@.len() == path@.len(),
            segments == path.deep_view(),
            fields.deep_view() == before + found,
            path_fields(specs.deep_view(), segments) == match path_fields(
                specs.deep_view().skip(i as int),
                segments.skip(i as int),
            ) {
                Some(rest) => Some(found + rest),
                None => None,
            },
        decreases specs@.len() - i,
    {
        proof {
            assert(specs.deep_view().skip(i as int).skip(1) == specs.deep_view().skip(i + 1));
            assert(segments.skip(i as int).skip(1) == segments.skip(i + 1));
            assert(specs.deep_view().skip(i as int)[0] == specs@[i as int]@);
            assert(segments.skip(i as int)[0] == path@[i as int]@);
        }
        match &specs[i] {
            PieceSpec::Literal(text) => {
                if !text_eq(path[i].as_str(), text.as_str()) {
                    return false;
                }
            },
            PieceSpec::Field(kind) => {
                match Piece::parse(*kind, path[i].as_str()) {
                    None => {
                        return false;
                    },
                    Some(piece) => {
                        proof {
                            let rest = path_fields(specs.deep_view().skip(i + 1), segments.skip(i + 1));
                            if rest is Some {
                                assert(found + (seq![piece@] + rest->0) == found.push(piece@)
                                    + rest->0);
                            }
                            assert(before + found.push(piece@) == (before + found).push(piece@));
                            found = found.push(piece@);
                        }
                        let ghost old_view = fields.deep_view();
                        fields.push(piece);
                        assert(fields.deep_view() == old_view.push(piece@));
                    },
                }
            },
        }
        i = i + 1;
    }
    proof {
        assert(found + Seq::<PieceValue>::empty() == found);
    }
    true
}

/// Matches a grouped query against the query entries of a template.
fn match_query(specs: &[QuerySpec], query: &QueryMap, fields: &mut Vec<Piece>) -> (matched:
    bool)
    ensures
        match query_fields(specs.deep_view(), query@) {
            Some(values) => matched && final(fields).deep_view() == old(fields).deep_view()
                + values,
            None => !matched,
        },
{
    let ghost before = fields.deep_view();
    let ghost mut found: Seq<PieceValue> = Seq::empty();
    let mut i: usize = 0;
    proof {
        assert(specs.deep_view().skip(0) == specs.deep_view());
        assert(before + found == before);
    }
    while i < specs.len()
        invariant
            i <= specs@.len(),
            fields.deep_view() == before + found,
            query_fields(specs.deep_view(), query@) == match query_fields(specs.deep_view().skip(i as int), query@) {
                Some(rest) => Some(found + rest),
                None => None,
            },
        decreases specs@.len() - i,
    {
        proof {
            assert(specs.deep_view().skip(i as int).skip(1) == specs.deep_view().skip(i + 1));
            assert(specs.deep_view().skip(i as int)[0] == specs@[i as int]@);
        }
        let key = specs[i].key.as_str();
        match &specs[i].value {
            None => {
                if !query.contains(key) {
                    return false;
                }
            },
            Some(PieceSpec::Literal(text)) => {
                match query.get_single(key) {
                    None => {
                        return false;
                    },
                    Some(value) => {
                        if !text_eq(value, text.as_str()) {
                            return false;
                        }
                    },
                }
            },
            Some(PieceSpec::Field(kind)) => {
                match query.get_single(key) {
                    None => {
                        return false;
                    },
                    Some(value) => {
                        match Piece::parse(*kind, value) {
                            None => {
                                return false;
                            },
                            Some(piece) => {
                                proof {
                                    let rest = query_fields(specs.deep_view().skip(i + 1), query@);
                                    if rest is Some {
                                        assert(found + (seq![piece@] + rest->0) == found.push(
                                            piece@,
                                        ) + rest->0);
                                    }
                                    assert(before + found.push(piece@) == (before + found).push(
                                        piece@,
                                    ));
                                    found = found.push(piece@);
                                }
                                let ghost old_view = fields.deep_view();
                                fields.push(piece);
                                assert(fields.deep_view() == old_view.push(piece@));
                            },
                        }
                    },
                }
            },
        }
        i = i + 1;
    }
    proof {
        assert(found + Seq::<PieceValue>::empty() == found);
    }
    true
}

impl RouteTemplate {
    /// Matches a normalized path and a grouped query against this template,
    /// and gives the values of its fields where they match.
    pub fn match_request(&self, path: &[PathSegment], query: &QueryMap) -> (fields: Option<
        Vec<Piece>,
    >)
        ensures
            fields.deep_view() == template_fields(self@, path.deep_view(), query@),
    {
        let mut fields: Vec<Piece> = Vec::new();
        assert(fields.deep_view() == Seq::<PieceValue>::empty());
        if !match_path(self.path.as_slice(), path, &mut fields) {
            return None;
        }
        let ghost first = fields.deep_view();
        assert(Seq::<PieceValue>::empty() + path_fields(self@.path, path.deep_view())->0 == first);
        if !match_query(self.query.as_slice(), query, &mut fields) {
            return None;
        }
        Some(fields)
    }
}

impl RouteTable {
    /// Finds the first template, in declared order, that matches a
    /// normalized path and a grouped query. Templates after the first match
    /// are not tried.
    pub fn match_first(&self, path: &[PathSegment], query: &QueryMap) -> (route: Option<
        RouteValue,
    >)
        ensures
            route.deep_view() == first_match(self.templates.deep_view(), path.deep_view(), query@),
    {
        let mut i: usize = 0;
        while i < self.templates.len()
            invariant
                i <= self.templates@.len(),
                first_match(self.templates.deep_view(), path.deep_view(), query@) == first_match_from(
                    self.templates.deep_view(),
                    path.deep_view(),
                    query@,
                    i as int,
                ),
            decreases self.templates@.len() - i,
        {
            match self.templates[i].match_request(path, query) {
                Some(fields) => {
                    return Some(RouteValue { variant: i, fields });
                },
                None => {},
            }
            i = i + 1;
        }
        None
    }

    /// Reads a route from decoded path segments and query pairs: normalizes
    /// them, and matches the templates in declared order.
    pub fn parse(&self, path: Vec<PathSegment>, query: Option<Vec<QueryPair>>) -> (result: Result<
        RouteValue,
        RouteError,
    >)
        ensures
            result_view(result) == match normalized_parse(path.deep_view(), query.deep_view()) {
                Err(canonical) => Err::<RouteModel, RouteFailure>(
                    RouteFailure::NormalizationFailed(canonical),
                ),
                Ok(parts) => match first_match(
                    self.templates.deep_view(),
                    parts.0,
                    grouped(pairs_of(parts.1)),
                ) {
                    Some(route) => Ok(route),
                    None => Err(RouteFailure::NoMatch),
                },
            },
    {
        match Normalization::default().normalize_parse(path, query) {
            Err(target) => Err(RouteError::NormalizationFailed(target)),
            Ok((path, query)) => {
                let map = QueryMap::from_query_iter(&query);
                match self.match_first(path.as_slice(), &map) {
                    Some(route) => Ok(route),
                    None => Err(RouteError::NoMatch),
                }
            },
        }
    }

    /// Reads a route from a request target.
    ///
    /// A target that is not canonical gives `NormalizationFailed` with the
    /// target to redirect to; a canonical one that no template matches gives
    /// `NoMatch`.
    pub fn try_parse(&self, raw: &str) -> (result: Result<RouteValue, RouteError>)
        ensures
            result_view(result) == route_of(self.templates.deep_view(), raw.spec_bytes()),
    {
        let (path, query) = parse_path_and_query(raw);
        self.parse(path, query)
    }
}

} // verus!
