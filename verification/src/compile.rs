//! Compiling the declaration of a route variant into its template.
//!
//! A variant is declared by a route string and by its fields. The route
//! string is `path[?query]`, as a request target is, but taken as it stands:
//! nothing in it is percent-decoded. A path segment, or the value of a query
//! key, is literal text, `{}` for the next field of a tuple variant, or
//! `{name}` for the field `name` of a variant with named fields. Each field of
//! the variant is used once.
use crate::raw::{first_index, lemma_first_index_is, split};
use crate::piece::PieceKind;
use crate::template::{
    path_kinds, query_kinds, template_kinds, PieceSpec, PieceSpecModel, QuerySpec, QuerySpecModel,
    RouteTemplate, TemplateModel,
};
use crate::text::text_eq;
use vstd::prelude::*;
use vstd::string::*;

verus! {

/// One declared field of a variant.
#[derive(Clone, Debug, PartialEq, Eq)]
pub struct FieldDecl {
    /// The name of the field; empty for a field of a tuple variant.
    pub name: String,
    /// The kind of value that the field holds.
    pub kind: PieceKind,
}

/// What a declared field is in contracts.
pub struct FieldModel {
    pub name: Seq<char>,
    pub kind: PieceKind,
}

impl View for FieldDecl {
    type V = FieldModel;

    open spec fn view(&self) -> FieldModel {
        FieldModel { name: self.name@, kind: self.kind }
    }
}

impl DeepView for FieldDecl {
    type V = FieldModel;

    open spec fn deep_view(&self) -> FieldModel {
        self@
    }
}

/// How the fields of a variant are written.
#[derive(Clone, Copy, Debug, PartialEq, Eq, Structural)]
pub enum FieldStyle {
    /// A unit variant: no fields.
    Unit,
    /// A tuple variant: fields by position.
    Positional,
    /// A variant with named fields.
    Named,
}

/// The fields of a variant.
#[derive(Clone, Debug, PartialEq, Eq)]
pub enum VariantFields {
    /// A unit variant.
    Unit,
    /// A tuple variant, with the kinds of its fields in order.
    Positional(Vec<PieceKind>),
    /// A variant with named fields.
    Named(Vec<FieldDecl>),
}

/// Why a route string is no template for a variant.
#[derive(Clone, Copy, Debug, PartialEq, Eq, Structural)]
pub enum TemplateError {
    /// A question mark with nothing behind it.
    EmptyQuery,
    /// A value that opens a brace and does not close it.
    InvalidValue,
    /// A field in the route string of a unit variant.
    UnitInterpolation,
    /// A named field in the route string of a tuple variant.
    NamedInTuple,
    /// A positional field in the route string of a variant with named fields.
    PositionalInNamed,
    /// More fields in the route string than the variant has.
    TooManyPieces,
    /// A named field that the variant does not have, or has no more.
    UnknownField,
    /// Fewer fields in the route string than the variant has.
    UnusedFields,
}

/// The style of the fields of a variant.
pub open spec fn style_of(fields: VariantFields) -> FieldStyle {
    match fields {
        VariantFields::Unit => FieldStyle::Unit,
        VariantFields::Positional(_) => FieldStyle::Positional,
        VariantFields::Named(_) => FieldStyle::Named,
    }
}

/// The fields of a variant as a list, those of a tuple variant without
/// names.
pub open spec fn declared(fields: VariantFields) -> Seq<FieldModel> {
    match fields {
        VariantFields::Unit => Seq::empty(),
        VariantFields::Positional(kinds) => Seq::new(
            kinds@.len(),
            |i: int| FieldModel { name: Seq::empty(), kind: kinds@[i] },
        ),
        VariantFields::Named(decls) => decls.deep_view(),
    }
}

/// What a segment or a value of a route string says.
pub enum RawValue {
    /// Literal text.
    Literal(Seq<char>),
    /// `{}`: the next field by position.
    Positional,
    /// `{name}`: the field of that name.
    Named(Seq<char>),
    /// An opening brace that is not closed.
    Invalid,
}

/// Reads a segment or a value of a route string.
pub open spec fn raw_value(text: Seq<char>) -> RawValue {
    if text == seq!['{', '}'] {
        RawValue::Positional
    } else if text.len() > 0 && text[0] == '{' {
        if text.len() >= 2 && text.last() == '}' {
            RawValue::Named(text.subrange(1, text.len() - 1))
        } else {
            RawValue::Invalid
        }
    } else {
        RawValue::Literal(text)
    }
}

/// The position of the first field named `name`, or the number of fields
/// where none is.
pub open spec fn name_position(fields: Seq<FieldModel>, name: Seq<char>) -> int
    decreases fields.len(),
{
    if fields.len() == 0 || fields[0].name == name {
        0
    } else {
        1 + name_position(fields.drop_first(), name)
    }
}

/// The entry that a segment or a value of a route string stands for, and the
/// fields that are left once it has taken its own: the first for `{}`, the
/// first of that name for `{name}`, none for literal text.
pub open spec fn bound(style: FieldStyle, remaining: Seq<FieldModel>, text: Seq<char>) -> Result<
    (PieceSpecModel, Seq<FieldModel>),
    TemplateError,
> {
    match raw_value(text) {
        RawValue::Literal(literal) => Ok((PieceSpecModel::Literal(literal), remaining)),
        RawValue::Invalid => Err(TemplateError::InvalidValue),
        RawValue::Positional => match style {
            FieldStyle::Unit => Err(TemplateError::UnitInterpolation),
            FieldStyle::Named => Err(TemplateError::PositionalInNamed),
            FieldStyle::Positional => if remaining.len() == 0 {
                Err(TemplateError::TooManyPieces)
            } else {
                Ok((PieceSpecModel::Field(remaining[0].kind), remaining.remove(0)))
            },
        },
        RawValue::Named(name) => match style {
            FieldStyle::Unit => Err(TemplateError::UnitInterpolation),
            FieldStyle::Positional => Err(TemplateError::NamedInTuple),
            FieldStyle::Named => if remaining.len() == 0 {
                Err(TemplateError::TooManyPieces)
            } else if name_position(remaining, name) >= remaining.len() {
                Err(TemplateError::UnknownField)
            } else {
                Ok(
                    (
                        PieceSpecModel::Field(remaining[name_position(remaining, name)].kind),
                        remaining.remove(name_position(remaining, name)),
                    ),
                )
            },
        },
    }
}

/// The path entries that the segments `pieces` of a route string stand for,
/// and the fields that they leave. The first segment in error decides.
pub open spec fn compiled_path(
    pieces: Seq<Seq<char>>,
    style: FieldStyle,
    remaining: Seq<FieldModel>,
) -> Result<(Seq<PieceSpecModel>, Seq<FieldModel>), TemplateError>
    decreases pieces.len(),
{
    if pieces.len() == 0 {
        Ok((Seq::empty(), remaining))
    } else {
        match bound(style, remaining, pieces[0]) {
            Err(error) => Err(error),
            Ok((spec, left)) => match compiled_path(pieces.skip(1), style, left) {
                Err(error) => Err(error),
                Ok((specs, last)) => Ok((seq![spec] + specs, last)),
            },
        }
    }
}

/// The query entry that one piece of the query of a route string stands for,
/// split at its first `=`, and the fields that it leaves.
pub open spec fn compiled_pair(piece: Seq<char>, style: FieldStyle, remaining: Seq<FieldModel>)
    -> Result<(QuerySpecModel, Seq<FieldModel>), TemplateError> {
    let eq = first_index(piece, '=');
    if eq >= piece.len() {
        Ok((QuerySpecModel { key: piece, value: None }, remaining))
    } else {
        match bound(style, remaining, piece.skip(eq + 1)) {
            Err(error) => Err(error),
            Ok((spec, left)) => Ok(
                (QuerySpecModel { key: piece.take(eq), value: Some(spec) }, left),
            ),
        }
    }
}

/// The query entries that the pieces `pieces` of the query of a route string
/// stand for, and the fields that they leave. The first piece in error
/// decides.
pub open spec fn compiled_query(
    pieces: Seq<Seq<char>>,
    style: FieldStyle,
    remaining: Seq<FieldModel>,
) -> Result<(Seq<QuerySpecModel>, Seq<FieldModel>), TemplateError>
    decreases pieces.len(),
{
    if pieces.len() == 0 {
        Ok((Seq::empty(), remaining))
    } else {
        match compiled_pair(pieces[0], style, remaining) {
            Err(error) => Err(error),
            Ok((spec, left)) => match compiled_query(pieces.skip(1), style, left) {
                Err(error) => Err(error),
                Ok((specs, last)) => Ok((seq![spec] + specs, last)),
            },
        }
    }
}

/// The segments of the path of a route string: none for the empty path and
/// for the slash alone, and else the pieces between the slashes, a leading
/// slash left out.
pub open spec fn path_pieces(path: Seq<char>) -> Seq<Seq<char>> {
    let rest = if path.len() > 0 && path[0] == '/' {
        path.skip(1)
    } else {
        path
    };
    if rest.len() == 0 {
        Seq::empty()
    } else {
        split(rest, '/')
    }
}

/// The template that the route string `route` declares for a variant with
/// the fields `fields`, or the first error met in the path, then in the
/// query, then in the count of the fields.
pub open spec fn compiled(route: Seq<char>, style: FieldStyle, fields: Seq<FieldModel>) -> Result<
    TemplateModel,
    TemplateError,
> {
    let q = first_index(route, '?');
    let path = if q >= route.len() {
        route
    } else {
        route.take(q)
    };
    match compiled_path(path_pieces(path), style, fields) {
        Err(error) => Err(error),
        Ok((path_specs, left)) => if q >= route.len() {
            if left.len() > 0 {
                Err(TemplateError::UnusedFields)
            } else {
                Ok(TemplateModel { path: path_specs, query: Seq::empty() })
            }
        } else if route.skip(q + 1).len() == 0 {
            Err(TemplateError::EmptyQuery)
        } else {
            match compiled_query(split(route.skip(q + 1), '&'), style, left) {
                Err(error) => Err(error),
                Ok((query_specs, last)) => if last.len() > 0 {
                    Err(TemplateError::UnusedFields)
                } else {
                    Ok(TemplateModel { path: path_specs, query: query_specs })
                },
            }
        },
    }
}

/// The kinds of declared fields, in their order.
pub open spec fn field_kinds(fields: Seq<FieldModel>) -> Seq<PieceKind> {
    Seq::new(fields.len(), |i: int| fields[i].kind)
}

/// The kind of the field that an entry stands for, if it stands for one.
pub open spec fn entry_kinds(spec: PieceSpecModel) -> Seq<PieceKind> {
    match spec {
        PieceSpecModel::Literal(_) => Seq::empty(),
        PieceSpecModel::Field(kind) => seq![kind],
    }
}

/// The first index of a name is a position, or the number of fields.
pub proof fn lemma_name_position(fields: Seq<FieldModel>, name: Seq<char>)
    ensures
        0 <= name_position(fields, name) <= fields.len(),
    decreases fields.len(),
{
    if fields.len() > 0 && fields[0].name != name {
        lemma_name_position(fields.drop_first(), name);
    }
}

/// A field entry takes one field of its kind off the list; a literal entry
/// leaves the list as it is. For a tuple variant the field taken is the
/// first.
pub proof fn lemma_bound_kinds(style: FieldStyle, remaining: Seq<FieldModel>, text: Seq<char>)
    requires
        bound(style, remaining, text) is Ok,
    ensures
        field_kinds(remaining).to_multiset() == entry_kinds(
            bound(style, remaining, text)->Ok_0.0,
        ).to_multiset().add(field_kinds(bound(style, remaining, text)->Ok_0.1).to_multiset()),
        style != FieldStyle::Named ==> field_kinds(remaining) == entry_kinds(
            bound(style, remaining, text)->Ok_0.0,
        ) + field_kinds(bound(style, remaining, text)->Ok_0.1),
{
    broadcast use vstd::seq_lib::group_to_multiset_ensures;

    let spec = bound(style, remaining, text)->Ok_0.0;
    let left = bound(style, remaining, text)->Ok_0.1;
    let kinds = field_kinds(remaining);
    match spec {
        PieceSpecModel::Literal(_) => {
            assert(entry_kinds(spec).to_multiset() =~= vstd::multiset::Multiset::empty());
            assert(entry_kinds(spec).to_multiset().add(kinds.to_multiset()) =~= kinds.to_multiset());
            assert(entry_kinds(spec) + kinds == kinds);
        },
        PieceSpecModel::Field(kind) => {
            let at = if style == FieldStyle::Named {
                name_position(remaining, raw_value(text)->Named_0)
            } else {
                0
            };
            lemma_name_position(remaining, raw_value(text)->Named_0);
            assert(left == remaining.remove(at));
            assert(field_kinds(left) == kinds.remove(at));
            assert(kinds[at] == kind);
            vstd::seq_lib::to_multiset_remove(kinds, at);
            assert(seq![kind].to_multiset() =~= vstd::multiset::Multiset::empty().insert(kind)) by {
                assert(seq![kind] == Seq::<PieceKind>::empty().push(kind));
            }
            assert(kinds.to_multiset().count(kind) > 0) by {
                assert(kinds.contains(kind));
            }
            assert(kinds.to_multiset() =~= seq![kind].to_multiset().add(
                kinds.to_multiset().remove(kind),
            ));
            if style != FieldStyle::Named {
                assert(kinds == seq![kind] + kinds.remove(0));
            }
        },
    }
}

/// The entries compiled from the path of a route string take their fields
/// off the list, each with its kind; for a tuple variant in order.
pub proof fn lemma_compiled_path_kinds(
    pieces: Seq<Seq<char>>,
    style: FieldStyle,
    remaining: Seq<FieldModel>,
)
    requires
        compiled_path(pieces, style, remaining) is Ok,
    ensures
        field_kinds(remaining).to_multiset() == path_kinds(
            compiled_path(pieces, style, remaining)->Ok_0.0,
        ).to_multiset().add(
            field_kinds(compiled_path(pieces, style, remaining)->Ok_0.1).to_multiset(),
        ),
        style != FieldStyle::Named ==> field_kinds(remaining) == path_kinds(
            compiled_path(pieces, style, remaining)->Ok_0.0,
        ) + field_kinds(compiled_path(pieces, style, remaining)->Ok_0.1),
    decreases pieces.len(),
{
    let kinds = field_kinds(remaining);
    if pieces.len() == 0 {
        assert(path_kinds(Seq::<PieceSpecModel>::empty()).to_multiset().add(kinds.to_multiset())
            =~= kinds.to_multiset()) by {
            broadcast use vstd::seq_lib::group_to_multiset_ensures;

        }
        assert(Seq::<PieceKind>::empty() + kinds == kinds);
    } else {
        let spec = bound(style, remaining, pieces[0])->Ok_0.0;
        let left = bound(style, remaining, pieces[0])->Ok_0.1;
        let specs = compiled_path(pieces.skip(1), style, left)->Ok_0.0;
        let last = compiled_path(pieces.skip(1), style, left)->Ok_0.1;
        lemma_bound_kinds(style, remaining, pieces[0]);
        lemma_compiled_path_kinds(pieces.skip(1), style, left);
        let all = seq![spec] + specs;
        assert(all.skip(1) == specs);
        assert(path_kinds(all) == entry_kinds(spec) + path_kinds(specs));
        vstd::seq_lib::lemma_multiset_commutative(entry_kinds(spec), path_kinds(specs));
        assert(kinds.to_multiset() =~= path_kinds(all).to_multiset().add(
            field_kinds(last).to_multiset(),
        ));
        if style != FieldStyle::Named {
            assert(kinds == path_kinds(all) + field_kinds(last));
        }
    }
}

/// The entries compiled from the query of a route string take their fields
/// off the list, each with its kind; for a tuple variant in order.
pub proof fn lemma_compiled_query_kinds(
    pieces: Seq<Seq<char>>,
    style: FieldStyle,
    remaining: Seq<FieldModel>,
)
    requires
        compiled_query(pieces, style, remaining) is Ok,
    ensures
        field_kinds(remaining).to_multiset() == query_kinds(
            compiled_query(pieces, style, remaining)->Ok_0.0,
        ).to_multiset().add(
            field_kinds(compiled_query(pieces, style, remaining)->Ok_0.1).to_multiset(),
        ),
        style != FieldStyle::Named ==> field_kinds(remaining) == query_kinds(
            compiled_query(pieces, style, remaining)->Ok_0.0,
        ) + field_kinds(compiled_query(pieces, style, remaining)->Ok_0.1),
    decreases pieces.len(),
{
    let kinds = field_kinds(remaining);
    if pieces.len() == 0 {
        assert(query_kinds(Seq::<QuerySpecModel>::empty()).to_multiset().add(kinds.to_multiset())
            =~= kinds.to_multiset()) by {
            broadcast use vstd::seq_lib::group_to_multiset_ensures;

        }
        assert(Seq::<PieceKind>::empty() + kinds == kinds);
    } else {
        let spec = compiled_pair(pieces[0], style, remaining)->Ok_0.0;
        let left = compiled_pair(pieces[0], style, remaining)->Ok_0.1;
        let specs = compiled_query(pieces.skip(1), style, left)->Ok_0.0;
        let last = compiled_query(pieces.skip(1), style, left)->Ok_0.1;
        let eq = first_index(pieces[0], '=');
        let first_kinds = match spec.value {
            Some(value) => entry_kinds(value),
            None => Seq::empty(),
        };
        if eq < pieces[0].len() {
            lemma_bound_kinds(style, remaining, pieces[0].skip(eq + 1));
        } else {
            assert(first_kinds.to_multiset().add(kinds.to_multiset()) =~= kinds.to_multiset()) by {
                broadcast use vstd::seq_lib::group_to_multiset_ensures;

            }
            assert(first_kinds + kinds == kinds);
        }
        lemma_compiled_query_kinds(pieces.skip(1), style, left);
        let all = seq![spec] + specs;
        assert(all.skip(1) == specs);
        assert(query_kinds(all) == first_kinds + query_kinds(specs)) by {
            assert(Seq::<PieceKind>::empty() + query_kinds(specs) == query_kinds(specs));
        }
        vstd::seq_lib::lemma_multiset_commutative(first_kinds, query_kinds(specs));
        assert(kinds.to_multiset() =~= query_kinds(all).to_multiset().add(
            field_kinds(last).to_multiset(),
        ));
        if style != FieldStyle::Named {
            assert(kinds == query_kinds(all) + field_kinds(last));
        }
    }
}

/// A compiled template has one field entry for each field of the variant,
/// of the field's kind; for a tuple variant and for a unit variant the
/// entries are in the order of the fields.
pub proof fn lemma_compiled_fields(route: Seq<char>, style: FieldStyle, fields: Seq<FieldModel>)
    requires
        compiled(route, style, fields) is Ok,
    ensures
        template_kinds(compiled(route, style, fields)->Ok_0).to_multiset() == field_kinds(
            fields,
        ).to_multiset(),
        template_kinds(compiled(route, style, fields)->Ok_0).len() == fields.len(),
        style != FieldStyle::Named ==> template_kinds(compiled(route, style, fields)->Ok_0)
            == field_kinds(fields),
{
    broadcast use vstd::seq_lib::group_to_multiset_ensures;

    let template = compiled(route, style, fields)->Ok_0;
    let q = first_index(route, '?');
    let path = if q >= route.len() {
        route
    } else {
        route.take(q)
    };
    let left = compiled_path(path_pieces(path), style, fields)->Ok_0.1;
    lemma_compiled_path_kinds(path_pieces(path), style, fields);
    let nothing = Seq::<PieceKind>::empty();
    if q >= route.len() {
        assert(field_kinds(left) == nothing);
        assert(query_kinds(template.query) == nothing);
    } else {
        let pieces = split(route.skip(q + 1), '&');
        let last = compiled_query(pieces, style, left)->Ok_0.1;
        lemma_compiled_query_kinds(pieces, style, left);
        assert(field_kinds(last) == nothing);
        assert(query_kinds(template.query) + nothing == query_kinds(template.query));
    }
    assert(nothing.to_multiset() =~= vstd::multiset::Multiset::empty());
    vstd::seq_lib::lemma_multiset_commutative(
        path_kinds(template.path),
        query_kinds(template.query),
    );
    assert(template_kinds(template).to_multiset() =~= field_kinds(fields).to_multiset());
    assert(path_kinds(template.path) + nothing == path_kinds(template.path));
    template_kinds(template).to_multiset_ensures();
    field_kinds(fields).to_multiset_ensures();
}

/// The characters of a text.
pub fn chars_of(text: &str) -> (chars: Vec<char>)
    ensures
        chars@ == text@,
{
    let mut chars: Vec<char> = Vec::new();
    for c in it: text.chars()
        invariant
            chars@ == it.seq().take(it.index() as int),
            it.seq() == text@,
    {
        chars.push(c);
    }
    chars
}

/// The text of some characters.
pub fn text_of(chars: &[char]) -> (text: String)
    ensures
        text@ == chars@,
{
    let mut text = String::new();
    let mut i: usize = 0;
    while i < chars.len()
        invariant
            i <= chars@.len(),
            text@ == chars@.take(i as int),
        decreases chars@.len() - i,
    {
        text.push(chars[i]);
        assert(chars@.take(i + 1) == chars@.take(i as int).push(chars@[i as int]));
        i = i + 1;
    }
    assert(chars@.take(i as int) == chars@);
    text
}

/// Finds the first `sep` in `chars`.
pub fn find_char(chars: &[char], sep: char) -> (at: usize)
    ensures
        at == first_index(chars@, sep),
{
    let mut i: usize = 0;
    while i < chars.len() && chars[i] != sep
        invariant
            i <= chars@.len(),
            forall|j: int| 0 <= j < i ==> chars@[j] != sep,
        decreases chars@.len() - i,
    {
        i = i + 1;
    }
    proof {
        lemma_first_index_is(chars@, sep, i as int);
    }
    i
}

/// The character sequences that a vector of slices holds.
pub open spec fn char_slices_view(pieces: Seq<&[char]>) -> Seq<Seq<char>> {
    Seq::new(pieces.len(), |i: int| pieces[i]@)
}

/// Splits `chars` at every `sep`.
pub fn split_chars<'a>(chars: &'a [char], sep: char) -> (pieces: Vec<&'a [char]>)
    ensures
        char_slices_view(pieces@) == split(chars@, sep),
{
    let mut pieces: Vec<&[char]> = Vec::new();
    let mut start: usize = 0;
    let mut i: usize = 0;
    proof {
        assert(chars@.take(0).len() == 0);
        assert(chars@.subrange(0, 0) == Seq::<char>::empty());
        assert(char_slices_view(pieces@).push(Seq::<char>::empty()) == seq![
            Seq::<char>::empty(),
        ]);
    }
    while i < chars.len()
        invariant
            start <= i <= chars@.len(),
            split(chars@.take(i as int), sep) == char_slices_view(pieces@).push(
                chars@.subrange(start as int, i as int),
            ),
        decreases chars@.len() - i,
    {
        let ghost done = char_slices_view(pieces@);
        let ghost current = chars@.subrange(start as int, i as int);
        proof {
            let next = chars@.take(i + 1);
            assert(next.drop_last() == chars@.take(i as int));
            assert(next.last() == chars@[i as int]);
            assert(done.push(current).drop_last() == done);
            assert(done.push(current).last() == current);
        }
        if chars[i] == sep {
            pieces.push(vstd::slice::slice_subrange(chars, start, i));
            start = i + 1;
            proof {
                assert(char_slices_view(pieces@) == done.push(current));
                assert(chars@.subrange(start as int, i + 1) == Seq::<char>::empty());
            }
        } else {
            proof {
                assert(chars@.subrange(start as int, i + 1) == current.push(chars@[i as int]));
            }
        }
        i = i + 1;
    }
    proof {
        assert(chars@.take(i as int) == chars@);
    }
    let ghost done = char_slices_view(pieces@);
    pieces.push(vstd::slice::slice_subrange(chars, start, i));
    proof {
        assert(char_slices_view(pieces@) == done.push(chars@.subrange(start as int, i as int)));
    }
    pieces
}

impl VariantFields {
    /// The style of these fields.
    pub fn style(&self) -> (style: FieldStyle)
        ensures
            style == style_of(*self),
    {
        match self {
            VariantFields::Unit => FieldStyle::Unit,
            VariantFields::Positional(_) => FieldStyle::Positional,
            VariantFields::Named(_) => FieldStyle::Named,
        }
    }

    /// These fields as a list, those of a tuple variant without names.
    pub fn to_list(&self) -> (list: Vec<FieldDecl>)
        ensures
            list.deep_view() == declared(*self),
    {
        let mut list: Vec<FieldDecl> = Vec::new();
        match self {
            VariantFields::Unit => {
                assert(list.deep_view() == declared(*self));
            },
            VariantFields::Positional(kinds) => {
                let mut i: usize = 0;
                while i < kinds.len()
                    invariant
                        i <= kinds@.len(),
                        list@.len() == i,
                        forall|j: int|
                            0 <= j < i ==> (#[trigger] list@[j])@ == (FieldModel {
                                name: Seq::empty(),
                                kind: kinds@[j],
                            }),
                    decreases kinds@.len() - i,
                {
                    list.push(FieldDecl { name: String::new(), kind: kinds[i] });
                    i = i + 1;
                }
                assert(list.deep_view() == declared(*self));
            },
            VariantFields::Named(decls) => {
                let mut i: usize = 0;
                while i < decls.len()
                    invariant
                        i <= decls@.len(),
                        list@.len() == i,
                        forall|j: int| 0 <= j < i ==> (#[trigger] list@[j])@ == decls@[j]@,
                    decreases decls@.len() - i,
                {
                    list.push(FieldDecl { name: decls[i].name.clone(), kind: decls[i].kind });
                    i = i + 1;
                }
                assert(list.deep_view() == declared(*self));
            },
        }
        list
    }
}

/// Finds the first field named `name`.
fn find_name(fields: &Vec<FieldDecl>, name: &str) -> (at: usize)
    ensures
        at == name_position(fields.deep_view(), name@),
{
    let ghost models = fields.deep_view();
    let mut i: usize = 0;
    proof {
        assert(models.skip(0) == models);
    }
    while i < fields.len() && !text_eq(fields[i].name.as_str(), name)
        invariant
            i <= fields@.len(),
            models == fields.deep_view(),
            name_position(models, name@) == i + name_position(models.skip(i as int), name@),
        decreases fields@.len() - i,
    {
        proof {
            assert(models.skip(i as int)[0] == fields@[i as int]@);
            assert(models.skip(i as int).drop_first() == models.skip(i + 1));
        }
        i = i + 1;
    }
    proof {
        if i < fields.len() {
            assert(models.skip(i as int)[0] == fields@[i as int]@);
        }
    }
    i
}

/// Takes the field at `at` off the list.
fn take_field(remaining: &mut Vec<FieldDecl>, at: usize) -> (kind: PieceKind)
    requires
        at < old(remaining)@.len(),
    ensures
        kind == old(remaining).deep_view()[at as int].kind,
        final(remaining).deep_view() == old(remaining).deep_view().remove(at as int),
{
    let field = remaining.remove(at);
    assert(remaining.deep_view() =~= old(remaining).deep_view().remove(at as int));
    field.kind
}

/// Reads one segment or value of a route string, and takes its field off
/// the list of those that are left.
fn bind(style: FieldStyle, remaining: &mut Vec<FieldDecl>, text: &[char]) -> (result: Result<
    PieceSpec,
    TemplateError,
>)
    ensures
        match bound(style, old(remaining).deep_view(), text@) {
            Ok((spec, left)) => result matches Ok(entry) && entry@ == spec && final(remaining).deep_view() == left,
            Err(error) => result == Err::<PieceSpec, TemplateError>(error),
        },
{
    let n = text.len();
    if n == 2 && text[0] == '{' && text[1] == '}' {
        assert(text@ == seq!['{', '}']);
        return match style {
            FieldStyle::Unit => Err(TemplateError::UnitInterpolation),
            FieldStyle::Named => Err(TemplateError::PositionalInNamed),
            FieldStyle::Positional => {
                if remaining.len() == 0 {
                    Err(TemplateError::TooManyPieces)
                } else {
                    Ok(PieceSpec::Field(take_field(remaining, 0)))
                }
            },
        };
    }
    assert(text@ != seq!['{', '}']) by {
        if text@ == seq!['{', '}'] {
            assert(seq!['{', '}'].len() == 2);
            assert(seq!['{', '}'][0] == '{');
            assert(seq!['{', '}'][1] == '}');
        }
    }
    if n > 0 && text[0] == '{' {
        if n >= 2 && text[n - 1] == '}' {
            let name = text_of(vstd::slice::slice_subrange(text, 1, n - 1));
            match style {
                FieldStyle::Unit => Err(TemplateError::UnitInterpolation),
                FieldStyle::Positional => Err(TemplateError::NamedInTuple),
                FieldStyle::Named => {
                    if remaining.len() == 0 {
                        Err(TemplateError::TooManyPieces)
                    } else {
                        let at = find_name(remaining, name.as_str());
                        if at >= remaining.len() {
                            Err(TemplateError::UnknownField)
                        } else {
                            Ok(PieceSpec::Field(take_field(remaining, at)))
                        }
                    }
                },
            }
        } else {
            Err(TemplateError::InvalidValue)
        }
    } else {
        Ok(PieceSpec::Literal(text_of(text)))
    }
}

/// Compiles the segments of the path of a route string.
fn compile_path(pieces: &Vec<&[char]>, style: FieldStyle, remaining: &mut Vec<FieldDecl>) -> (result:
    Result<Vec<PieceSpec>, TemplateError>)
    ensures
        match compiled_path(char_slices_view(pieces@), style, old(remaining).deep_view()) {
            Ok((specs, left)) => result matches Ok(entries) && entries.deep_view() == specs
                && final(remaining).deep_view() == left,
            Err(error) => result == Err::<Vec<PieceSpec>, TemplateError>(error),
        },
{
    let ghost texts = char_slices_view(pieces@);
    let ghost start = remaining.deep_view();
    let mut entries: Vec<PieceSpec> = Vec::new();
    let mut i: usize = 0;
    proof {
        assert(texts.skip(0) == texts);
    }
    while i < pieces.len()
        invariant
            i <= pieces@.len(),
            texts == char_slices_view(pieces@),
            start == old(remaining).deep_view(),
            compiled_path(texts, style, start) == match compiled_path(
                texts.skip(i as int),
                style,
                remaining.deep_view(),
            ) {
                Ok((specs, left)) => Ok::<(Seq<PieceSpecModel>, Seq<FieldModel>), TemplateError>(
                    (entries.deep_view() + specs, left),
                ),
                Err(error) => Err(error),
            },
        decreases pieces@.len() - i,
    {
        let ghost done = entries.deep_view();
        proof {
            assert(texts.skip(i as int)[0] == pieces@[i as int]@);
            assert(texts.skip(i as int).skip(1) == texts.skip(i + 1));
        }
        match bind(style, remaining, pieces[i]) {
            Err(error) => {
                return Err(error);
            },
            Ok(entry) => {
                entries.push(entry);
                proof {
                    assert(entries.deep_view() == done.push(entry@));
                    match compiled_path(texts.skip(i + 1), style, remaining.deep_view()) {
                        Ok((specs, left)) => {
                            assert(done + (seq![entry@] + specs) == done.push(entry@) + specs);
                        },
                        Err(_) => {},
                    }
                }
            },
        }
        i = i + 1;
    }
    proof {
        assert(entries.deep_view() + Seq::<PieceSpecModel>::empty() == entries.deep_view());
    }
    Ok(entries)
}

/// Compiles one piece of the query of a route string.
fn compile_pair(piece: &[char], style: FieldStyle, remaining: &mut Vec<FieldDecl>) -> (result:
    Result<QuerySpec, TemplateError>)
    ensures
        match compiled_pair(piece@, style, old(remaining).deep_view()) {
            Ok((spec, left)) => result matches Ok(entry) && entry@ == spec && final(remaining).deep_view() == left,
            Err(error) => result == Err::<QuerySpec, TemplateError>(error),
        },
{
    let eq = find_char(piece, '=');
    if eq >= piece.len() {
        Ok(QuerySpec { key: text_of(piece), value: None })
    } else {
        let key = text_of(vstd::slice::slice_subrange(piece, 0, eq));
        let value = vstd::slice::slice_subrange(piece, eq + 1, piece.len());
        match bind(style, remaining, value) {
            Err(error) => Err(error),
            Ok(entry) => Ok(QuerySpec { key, value: Some(entry) }),
        }
    }
}

/// Compiles the pieces of the query of a route string.
fn compile_query(pieces: &Vec<&[char]>, style: FieldStyle, remaining: &mut Vec<FieldDecl>) -> (result:
    Result<Vec<QuerySpec>, TemplateError>)
    ensures
        match compiled_query(char_slices_view(pieces@), style, old(remaining).deep_view()) {
            Ok((specs, left)) => result matches Ok(entries) && entries.deep_view() == specs
                && final(remaining).deep_view() == left,
            Err(error) => result == Err::<Vec<QuerySpec>, TemplateError>(error),
        },
{
    let ghost texts = char_slices_view(pieces@);
    let ghost start = remaining.deep_view();
    let mut entries: Vec<QuerySpec> = Vec::new();
    let mut i: usize = 0;
    proof {
        assert(texts.skip(0) == texts);
    }
    while i < pieces.len()
        invariant
            i <= pieces@.len(),
            texts == char_slices_view(pieces@),
            start == old(remaining).deep_view(),
            compiled_query(texts, style, start) == match compiled_query(
                texts.skip(i as int),
                style,
                remaining.deep_view(),
            ) {
                Ok((specs, left)) => Ok::<(Seq<QuerySpecModel>, Seq<FieldModel>), TemplateError>(
                    (entries.deep_view() + specs, left),
                ),
                Err(error) => Err(error),
            },
        decreases pieces@.len() - i,
    {
        let ghost done = entries.deep_view();
        proof {
            assert(texts.skip(i as int)[0] == pieces@[i as int]@);
            assert(texts.skip(i as int).skip(1) == texts.skip(i + 1));
        }
        match compile_pair(pieces[i], style, remaining) {
            Err(error) => {
                return Err(error);
            },
            Ok(entry) => {
                entries.push(entry);
                proof {
                    assert(entries.deep_view() == done.push(entry@));
                    match compiled_query(texts.skip(i + 1), style, remaining.deep_view()) {
                        Ok((specs, left)) => {
                            assert(done + (seq![entry@] + specs) == done.push(entry@) + specs);
                        },
                        Err(_) => {},
                    }
                }
            },
        }
        i = i + 1;
    }
    proof {
        assert(entries.deep_view() + Seq::<QuerySpecModel>::empty() == entries.deep_view());
    }
    Ok(entries)
}

impl RouteTemplate {
    /// Compiles the route string of a variant into its template.
    ///
    /// The template has one field entry for each field of the variant. A
    /// route string that uses a field that is not there, or leaves one
    /// unused, is refused.
    pub fn compile(route: &str, fields: &VariantFields) -> (result: Result<
        RouteTemplate,
        TemplateError,
    >)
        ensures
            match compiled(route@, style_of(*fields), declared(*fields)) {
                Ok(model) => result matches Ok(template) && template@ == model,
                Err(error) => result == Err::<RouteTemplate, TemplateError>(error),
            },
    {
        let chars = chars_of(route);
        let style = fields.style();
        let mut remaining = fields.to_list();
        let q = find_char(chars.as_slice(), '?');
        let path_chars = if q >= chars.len() {
            chars.as_slice()
        } else {
            vstd::slice::slice_subrange(chars.as_slice(), 0, q)
        };
        let rest = if path_chars.len() > 0 && path_chars[0] == '/' {
            vstd::slice::slice_subrange(path_chars, 1, path_chars.len())
        } else {
            path_chars
        };
        let pieces = if rest.len() == 0 {
            Vec::new()
        } else {
            split_chars(rest, '/')
        };
        proof {
            if rest@.len() == 0 {
                assert(char_slices_view(pieces@) == Seq::<Seq<char>>::empty());
            }
        }
        let path = match compile_path(&pieces, style, &mut remaining) {
            Err(error) => {
                return Err(error);
            },
            Ok(path) => path,
        };
        if q >= chars.len() {
            if remaining.len() > 0 {
                return Err(TemplateError::UnusedFields);
            }
            let template = RouteTemplate { path, query: Vec::new() };
            assert(template@.query == Seq::<QuerySpecModel>::empty());
            return Ok(template);
        }
        let query_chars = vstd::slice::slice_subrange(chars.as_slice(), q + 1, chars.len());
        if query_chars.len() == 0 {
            return Err(TemplateError::EmptyQuery);
        }
        let pairs = split_chars(query_chars, '&');
        let query = match compile_query(&pairs, style, &mut remaining) {
            Err(error) => {
                return Err(error);
            },
            Ok(query) => query,
        };
        if remaining.len() > 0 {
            return Err(TemplateError::UnusedFields);
        }
        Ok(RouteTemplate { path, query })
    }
}

} // verus!
