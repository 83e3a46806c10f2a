//! Route templates: the wire shape of the variants of an application's
//! routes.
//!
//! A template describes one variant: literal and field path segments, and
//! query keys that must be there, must have a literal value, or carry a
//! field. A table holds the templates of all variants in their declared
//! order, and a route names its variant by its position there.
use crate::piece::{kind_of, kinds_of, Piece, PieceKind, PieceValue};
use vstd::prelude::*;
use vstd::string::*;

verus! {

/// One path segment, or the value of one query key, of a template.
#[derive(Clone, Debug, PartialEq, Eq)]
pub enum PieceSpec {
    /// The text must be exactly this.
    Literal(String),
    /// The text is the written form of a field of this kind.
    Field(PieceKind),
}

/// One query key of a template.
#[derive(Clone, Debug, PartialEq, Eq)]
pub struct QuerySpec {
    /// The key, always literal.
    pub key: String,
    /// What the key's value must be; `None` asks only that the key be there.
    pub value: Option<PieceSpec>,
}

/// The wire shape of one route variant. The fields of the variant are the
/// `Field` entries of the path, in their order, and after them those of the
/// query.
#[derive(Clone, Debug, PartialEq, Eq)]
pub struct RouteTemplate {
    pub path: Vec<PieceSpec>,
    pub query: Vec<QuerySpec>,
}

/// What a path entry, or the value entry of a query key, is in contracts.
pub enum PieceSpecModel {
    Literal(Seq<char>),
    Field(PieceKind),
}

/// What a query entry is in contracts.
pub struct QuerySpecModel {
    pub key: Seq<char>,
    pub value: Option<PieceSpecModel>,
}

/// What a template is in contracts.
pub struct TemplateModel {
    pub path: Seq<PieceSpecModel>,
    pub query: Seq<QuerySpecModel>,
}

impl View for PieceSpec {
    type V = PieceSpecModel;

    open spec fn view(&self) -> PieceSpecModel {
        match self {
            PieceSpec::Literal(text) => PieceSpecModel::Literal(text@),
            PieceSpec::Field(kind) => PieceSpecModel::Field(*kind),
        }
    }
}

impl DeepView for PieceSpec {
    type V = PieceSpecModel;

    open spec fn deep_view(&self) -> PieceSpecModel {
        self@
    }
}

impl View for QuerySpec {
    type V = QuerySpecModel;

    open spec fn view(&self) -> QuerySpecModel {
        QuerySpecModel { key: self.key@, value: self.value.deep_view() }
    }
}

impl DeepView for QuerySpec {
    type V = QuerySpecModel;

    open spec fn deep_view(&self) -> QuerySpecModel {
        self@
    }
}

impl View for RouteTemplate {
    type V = TemplateModel;

    open spec fn view(&self) -> TemplateModel {
        TemplateModel { path: self.path.deep_view(), query: self.query.deep_view() }
    }
}

impl DeepView for RouteTemplate {
    type V = TemplateModel;

    open spec fn deep_view(&self) -> TemplateModel {
        self@
    }
}

/// A route: the position of its variant in the table, and the values of the
/// variant's fields in the order of its template.
#[derive(Clone, Debug, PartialEq, Eq)]
pub struct RouteValue {
    pub variant: usize,
    pub fields: Vec<Piece>,
}

/// What a route is in contracts.
pub struct RouteModel {
    pub variant: int,
    pub fields: Seq<PieceValue>,
}

impl View for RouteValue {
    type V = RouteModel;

    open spec fn view(&self) -> RouteModel {
        RouteModel { variant: self.variant as int, fields: self.fields.deep_view() }
    }
}

impl DeepView for RouteValue {
    type V = RouteModel;

    open spec fn deep_view(&self) -> RouteModel {
        self@
    }
}

/// The kinds of the fields among the path entries `specs`, in their order.
pub open spec fn path_kinds(specs: Seq<PieceSpecModel>) -> Seq<PieceKind>
    decreases specs.len(),
{
    if specs.len() == 0 {
        Seq::empty()
    } else {
        match specs[0] {
            PieceSpecModel::Literal(_) => path_kinds(specs.skip(1)),
            PieceSpecModel::Field(kind) => seq![kind] + path_kinds(specs.skip(1)),
        }
    }
}

/// The kinds of the fields among the query entries `specs`, in their order.
pub open spec fn query_kinds(specs: Seq<QuerySpecModel>) -> Seq<PieceKind>
    decreases specs.len(),
{
    if specs.len() == 0 {
        Seq::empty()
    } else {
        match specs[0].value {
            Some(PieceSpecModel::Field(kind)) => seq![kind] + query_kinds(specs.skip(1)),
            _ => query_kinds(specs.skip(1)),
        }
    }
}

/// The kinds of the fields of a template: those of its path, then those of
/// its query.
pub open spec fn template_kinds(template: TemplateModel) -> Seq<PieceKind> {
    path_kinds(template.path) + query_kinds(template.query)
}

/// True when `fields` are values for the fields of `template`: as many, and
/// each of its field's kind.
pub open spec fn fits(template: TemplateModel, fields: Seq<PieceValue>) -> bool {
    kinds_of(fields) == template_kinds(template)
}

impl RouteTemplate {
    /// Tells whether `fields` are values for the fields of this template.
    pub fn accepts(&self, fields: &[Piece]) -> (ok: bool)
        ensures
            ok == fits(self@, fields.deep_view()),
    {
        let ghost values = fields.deep_view();
        let ghost kinds = kinds_of(values);
        let mut k: usize = 0;
        let mut i: usize = 0;
        proof {
            assert(self@.path.skip(0) == self@.path);
            assert(kinds.take(0) + template_kinds(self@) == template_kinds(self@));
        }
        while i < self.path.len()
            invariant
                i <= self.path@.len(),
                k <= fields@.len(),
                values == fields.deep_view(),
                kinds == kinds_of(values),
                template_kinds(self@) == kinds.take(k as int) + path_kinds(
                    self@.path.skip(i as int),
                ) + query_kinds(self@.query),
            decreases self.path@.len() - i,
        {
            proof {
                assert(self@.path.skip(i as int).skip(1) == self@.path.skip(i + 1));
                assert(self@.path.skip(i as int)[0] == self.path@[i as int]@);
            }
            match &self.path[i] {
                PieceSpec::Literal(_) => {},
                PieceSpec::Field(kind) => {
                    if k >= fields.len() {
                        proof {
                            assert(template_kinds(self@).len() > kinds.len());
                        }
                        return false;
                    }
                    if fields[k].kind() != *kind {
                        proof {
                            assert(template_kinds(self@)[k as int] == *kind);
                            assert(kinds[k as int] == kind_of(fields@[k as int]@));
                        }
                        return false;
                    }
                    proof {
                        assert(kinds.take(k + 1) == kinds.take(k as int).push(*kind));
                        assert(kinds.take(k as int) + (seq![*kind] + path_kinds(
                            self@.path.skip(i + 1),
                        )) == kinds.take(k + 1) + path_kinds(self@.path.skip(i + 1)));
                    }
                    k = k + 1;
                },
            }
            i = i + 1;
        }
        let mut j: usize = 0;
        proof {
            assert(self@.query.skip(0) == self@.query);
            assert(kinds.take(k as int) + Seq::<PieceKind>::empty() == kinds.take(k as int));
        }
        while j < self.query.len()
            invariant
                j <= self.query@.len(),
                k <= fields@.len(),
                values == fields.deep_view(),
                kinds == kinds_of(values),
                template_kinds(self@) == kinds.take(k as int) + query_kinds(
                    self@.query.skip(j as int),
                ),
            decreases self.query@.len() - j,
        {
            proof {
                assert(self@.query.skip(j as int).skip(1) == self@.query.skip(j + 1));
                assert(self@.query.skip(j as int)[0] == self.query@[j as int]@);
            }
            match &self.query[j].value {
                Some(PieceSpec::Field(kind)) => {
                    if k >= fields.len() {
                        proof {
                            assert(template_kinds(self@).len() > kinds.len());
                        }
                        return false;
                    }
                    if fields[k].kind() != *kind {
                        proof {
                            assert(template_kinds(self@)[k as int] == *kind);
                            assert(kinds[k as int] == kind_of(fields@[k as int]@));
                        }
                        return false;
                    }
                    proof {
                        assert(kinds.take(k + 1) == kinds.take(k as int).push(*kind));
                        assert(kinds.take(k as int) + (seq![*kind] + query_kinds(
                            self@.query.skip(j + 1),
                        )) == kinds.take(k + 1) + query_kinds(self@.query.skip(j + 1)));
                    }
                    k = k + 1;
                },
                _ => {},
            }
            j = j + 1;
        }
        proof {
            assert(kinds.take(k as int) + Seq::<PieceKind>::empty() == kinds.take(k as int));
            if k == fields.len() {
                assert(kinds.take(k as int) == kinds);
            } else {
                assert(template_kinds(self@).len() < kinds.len());
            }
        }
        k == fields.len()
    }
}

/// Values that fit a template are those of its path, of the kinds of the
/// path's fields, and then those of its query.
pub proof fn lemma_fits_split(template: TemplateModel, fields: Seq<PieceValue>)
    requires
        fits(template, fields),
    ensures
        path_kinds(template.path).len() <= fields.len(),
        kinds_of(fields).take(path_kinds(template.path).len() as int) == path_kinds(template.path),
        kinds_of(fields).skip(path_kinds(template.path).len() as int) == query_kinds(template.query),
{
    let n = path_kinds(template.path).len() as int;
    let all = template_kinds(template);
    assert(all.len() == n + query_kinds(template.query).len());
    assert(all.take(n) == path_kinds(template.path));
    assert(all.skip(n) == query_kinds(template.query));
}

impl RouteTemplate {
    /// The number of fields in the path of this template.
    pub fn path_field_count(&self) -> (count: usize)
        ensures
            count == path_kinds(self@.path).len(),
    {
        let mut count: usize = 0;
        let mut i: usize = 0;
        proof {
            assert(self@.path.skip(0) == self@.path);
        }
        while i < self.path.len()
            invariant
                i <= self.path@.len(),
                count <= i,
                path_kinds(self@.path).len() == count + path_kinds(self@.path.skip(i as int)).len(),
            decreases self.path@.len() - i,
        {
            proof {
                assert(self@.path.skip(i as int).skip(1) == self@.path.skip(i + 1));
                assert(self@.path.skip(i as int)[0] == self.path@[i as int]@);
            }
            match &self.path[i] {
                PieceSpec::Literal(_) => {},
                PieceSpec::Field(_) => {
                    count = count + 1;
                },
            }
            i = i + 1;
        }
        count
    }
}

/// True when `route` names a variant of the table and holds values for the
/// fields of its template.
pub open spec fn is_route_of(templates: Seq<TemplateModel>, route: RouteModel) -> bool {
    0 <= route.variant < templates.len() && fits(templates[route.variant], route.fields)
}

/// The route templates of an application, one for each variant of its routes,
/// in the order in which the variants are declared.
#[derive(Clone, Debug)]
pub struct RouteTable {
    pub templates: Vec<RouteTemplate>,
}

impl RouteTable {
    /// A table of the templates `templates`, in this order.
    pub fn new(templates: Vec<RouteTemplate>) -> (table: RouteTable)
        ensures
            table.templates == templates,
    {
        RouteTable { templates }
    }

    /// Tells whether `route` names a variant of this table and holds values
    /// for the fields of its template.
    pub fn has_route(&self, route: &RouteValue) -> (ok: bool)
        ensures
            ok == is_route_of(self.templates.deep_view(), route@),
    {
        route.variant < self.templates.len() && self.templates[route.variant].accepts(
            route.fields.as_slice(),
        )
    }
}

} // verus!
