//! Reading what was written: a rendered request target is lexed back into
//! the pieces it was rendered from, it is canonical, and it reads as the
//! route it was written for.
use crate::matcher::{
    lemma_first_match_at, path_fields, query_fields, route_of, single_value, template_fields,
    RouteFailure,
};
use crate::normalize::{
    lemma_dash_unescaped_escaped, lemma_normalized_parse_render, normalized_parse,
    normalized_render_path, without_empty_segments,
};
use crate::percent::{
    decoded, encoded, is_escaped, lemma_decoded_encoded, lemma_encoded_bytes, EscapeSet,
};
use crate::piece::{
    kind_of, kinds_of, lemma_piece_round_trip, written_piece, PieceKind, PieceValue,
};
use crate::query::{grouped, has_key, pairs_of, values_of};
use crate::raw::{
    first_index, lemma_first_index_is, parsed_pair, parsed_path, parsed_query, parsed_target,
    rendered, rendered_pair, rendered_pairs, rendered_path, split, PairText, SegmentText,
};
use crate::renderer::{
    route_path, route_query, route_target, written_pairs, written_segments,
};
use crate::template::{
    is_route_of, path_kinds, query_kinds, template_kinds, PieceSpecModel, QuerySpecModel,
    RouteModel, TemplateModel,
};
use crate::text::lemma_utf8_len;
use vstd::prelude::*;
use vstd::utf8::*;

verus! {

/// True when no byte of `bytes` is `sep`.
pub open spec fn free_of(bytes: Seq<u8>, sep: u8) -> bool {
    forall|i: int| 0 <= i < bytes.len() ==> bytes[i] != sep
}

/// Bytes without a separator are a single piece.
pub proof fn lemma_split_whole(bytes: Seq<u8>, sep: u8)
    requires
        free_of(bytes, sep),
    ensures
        split(bytes, sep) == seq![bytes],
    decreases bytes.len(),
{
    if bytes.len() == 0 {
        assert(bytes == Seq::<u8>::empty());
    } else {
        let init = bytes.drop_last();
        lemma_split_whole(init, sep);
        assert(seq![init].drop_last().push(init.push(bytes.last())) == seq![bytes]) by {
            assert(init.push(bytes.last()) == bytes);
        }
    }
}

/// A separator and a piece without one, added to some bytes, add that piece
/// to theirs.
pub proof fn lemma_split_append(head: Seq<u8>, piece: Seq<u8>, sep: u8)
    requires
        free_of(piece, sep),
    ensures
        split(head + seq![sep] + piece, sep) == split(head, sep).push(piece),
    decreases piece.len(),
{
    let whole = head + seq![sep] + piece;
    if piece.len() == 0 {
        assert(whole.drop_last() == head);
        assert(piece == Seq::<u8>::empty());
    } else {
        let init = piece.drop_last();
        lemma_split_append(head, init, sep);
        assert(whole.drop_last() == head + seq![sep] + init);
        assert(whole.last() == piece.last());
        let before = split(head, sep).push(init);
        assert(before.drop_last() == split(head, sep));
        assert(init.push(piece.last()) == piece);
    }
}

/// The first separator after bytes without one stands right behind them.
pub proof fn lemma_first_index_after(head: Seq<u8>, tail: Seq<u8>, sep: u8)
    requires
        free_of(head, sep),
    ensures
        first_index(head + seq![sep] + tail, sep) == head.len(),
        (head + seq![sep] + tail).take(head.len() as int) == head,
        (head + seq![sep] + tail).skip(head.len() as int + 1) == tail,
{
    let whole = head + seq![sep] + tail;
    assert forall|j: int| 0 <= j < head.len() implies whole[j] != sep by {
        assert(whole[j] == head[j]);
    }
    lemma_first_index_is(whole, sep, head.len() as int);
    assert(whole.take(head.len() as int) == head);
    assert(whole.skip(head.len() as int + 1) == tail);
}

/// In bytes without a separator the first index is their length.
pub proof fn lemma_first_index_none(bytes: Seq<u8>, sep: u8)
    requires
        free_of(bytes, sep),
    ensures
        first_index(bytes, sep) == bytes.len(),
{
    lemma_first_index_is(bytes, sep, bytes.len() as int);
}

/// An encoded piece holds no byte that its position escapes, but for the
/// `%` and the hexadecimal digits of the escapes themselves.
pub proof fn lemma_encoded_free_of(bytes: Seq<u8>, set: EscapeSet, sep: u8)
    requires
        is_escaped(sep, set),
        sep != 0x25,
        !(0x30 <= sep <= 0x39),
        !(0x41 <= sep <= 0x46),
    ensures
        free_of(encoded(bytes, set), sep),
{
    lemma_encoded_bytes(bytes, set);
    assert forall|i: int| 0 <= i < encoded(bytes, set).len() implies encoded(bytes, set)[i]
        != sep by {
        let e = encoded(bytes, set)[i];
        assert(e == 0x25 || (0x30 <= e <= 0x39) || (0x41 <= e <= 0x46) || !is_escaped(e, set));
    }
}

/// The encoded form of bytes is empty only for no bytes.
pub proof fn lemma_encoded_len(bytes: Seq<u8>, set: EscapeSet)
    ensures
        encoded(bytes, set).len() >= bytes.len(),
    decreases bytes.len(),
{
    if bytes.len() > 0 {
        lemma_encoded_len(bytes.drop_last(), set);
    }
}

/// True when every byte of `bytes` is a visible ASCII character: no control,
/// no space, nothing beyond `~`.
pub open spec fn visible(bytes: Seq<u8>) -> bool {
    forall|i: int| 0 <= i < bytes.len() ==> 0x21 <= #[trigger] bytes[i] <= 0x7e
}

/// Visible bytes after visible bytes are visible.
pub proof fn lemma_visible_concat(a: Seq<u8>, b: Seq<u8>)
    requires
        visible(a),
        visible(b),
    ensures
        visible(a + b),
{
    assert forall|i: int| 0 <= i < (a + b).len() implies 0x21 <= #[trigger] (a + b)[i]
        <= 0x7e by {
        if i < a.len() {
            assert((a + b)[i] == a[i]);
        } else {
            assert((a + b)[i] == b[i - a.len()]);
        }
    }
}

/// An encoded piece is visible, in either position.
pub proof fn lemma_encoded_visible(bytes: Seq<u8>, set: EscapeSet)
    ensures
        visible(encoded(bytes, set)),
{
    lemma_encoded_bytes(bytes, set);
    assert forall|i: int| 0 <= i < encoded(bytes, set).len() implies 0x21 <= #[trigger] encoded(
        bytes,
        set,
    )[i] <= 0x7e by {
        let e = encoded(bytes, set)[i];
        assert(e == 0x25 || (0x30 <= e <= 0x39) || (0x41 <= e <= 0x46) || !is_escaped(e, set));
    }
}

/// A rendered path is visible.
pub proof fn lemma_rendered_path_visible(path: Seq<SegmentText>)
    ensures
        visible(rendered_path(path)),
    decreases path.len(),
{
    if path.len() > 0 {
        lemma_rendered_path_visible(path.drop_last());
        lemma_encoded_visible(encode_utf8(path.last()), EscapeSet::Path);
        lemma_visible_concat(rendered_path(path.drop_last()), seq![0x2fu8]);
        lemma_visible_concat(
            rendered_path(path.drop_last()) + seq![0x2fu8],
            encoded(encode_utf8(path.last()), EscapeSet::Path),
        );
    }
}

/// Rendered pairs are visible.
pub proof fn lemma_rendered_pairs_visible(pairs: Seq<PairText>)
    ensures
        visible(rendered_pairs(pairs)),
    decreases pairs.len(),
{
    if pairs.len() > 0 {
        let pair = pairs.last();
        let key = encoded(encode_utf8(pair.0), EscapeSet::Query);
        lemma_encoded_visible(encode_utf8(pair.0), EscapeSet::Query);
        match pair.1 {
            None => {},
            Some(text) => {
                lemma_encoded_visible(encode_utf8(text), EscapeSet::Query);
                lemma_visible_concat(key, seq![0x3du8]);
                lemma_visible_concat(
                    key + seq![0x3du8],
                    encoded(encode_utf8(text), EscapeSet::Query),
                );
            },
        }
        if pairs.len() > 1 {
            lemma_rendered_pairs_visible(pairs.drop_last());
            lemma_visible_concat(rendered_pairs(pairs.drop_last()), seq![0x26u8]);
            lemma_visible_concat(
                rendered_pairs(pairs.drop_last()) + seq![0x26u8],
                rendered_pair(pair),
            );
        }
    }
}

/// A rendered request target is made of visible ASCII characters alone, so
/// that it can stand in a header field or in a link as it is.
pub proof fn lemma_rendered_visible(path: Seq<SegmentText>, query: Option<Seq<PairText>>)
    ensures
        visible(rendered(path, query)),
{
    lemma_rendered_path_visible(path);
    let head = rendered_head(path);
    match query {
        None => {},
        Some(pairs) => {
            lemma_rendered_pairs_visible(pairs);
            lemma_visible_concat(head, seq![0x3fu8]);
            lemma_visible_concat(head + seq![0x3fu8], rendered_pairs(pairs));
        },
    }
}

/// The encoded segments of a path.
pub open spec fn encoded_segments(path: Seq<SegmentText>) -> Seq<Seq<u8>> {
    Seq::new(path.len(), |i: int| encoded(encode_utf8(path[i]), EscapeSet::Path))
}

/// A rendered path begins with a slash, holds no question mark, and splits
/// at its other slashes into its encoded segments.
pub proof fn lemma_rendered_path(path: Seq<SegmentText>)
    requires
        path.len() > 0,
    ensures
        rendered_path(path).len() > 0,
        rendered_path(path)[0] == 0x2f,
        free_of(rendered_path(path), 0x3f),
        split(rendered_path(path).skip(1), 0x2f) == encoded_segments(path),
    decreases path.len(),
{
    let init = path.drop_last();
    let last = encoded(encode_utf8(path.last()), EscapeSet::Path);
    let whole = rendered_path(path);
    lemma_encoded_free_of(encode_utf8(path.last()), EscapeSet::Path, 0x2f);
    lemma_encoded_free_of(encode_utf8(path.last()), EscapeSet::Path, 0x3f);
    if init.len() == 0 {
        assert(rendered_path(init) == Seq::<u8>::empty());
        assert(whole == seq![0x2fu8] + last);
        assert(whole.skip(1) == last);
        lemma_split_whole(last, 0x2f);
        assert(encoded_segments(path) == seq![last]);
    } else {
        lemma_rendered_path(init);
        let head = rendered_path(init);
        assert(whole == head + seq![0x2fu8] + last);
        assert(whole.skip(1) == head.skip(1) + seq![0x2fu8] + last);
        lemma_split_append(head.skip(1), last, 0x2f);
        assert(encoded_segments(path) == encoded_segments(init).push(last));
        assert forall|i: int| 0 <= i < whole.len() implies whole[i] != 0x3f by {
            if i < head.len() {
                assert(whole[i] == head[i]);
            } else if i > head.len() {
                assert(whole[i] == last[i - head.len() - 1]);
            }
        }
    }
}

/// The path of a request target, as `rendered` writes it.
pub open spec fn rendered_head(path: Seq<SegmentText>) -> Seq<u8> {
    if path.len() == 0 {
        seq![0x2fu8]
    } else {
        rendered_path(path)
    }
}

/// Lexing a rendered path gives the segments it was rendered from, unless
/// they are the single empty segment, which renders as the path without
/// segments does.
pub proof fn lemma_parsed_rendered_path(path: Seq<SegmentText>)
    requires
        !(path.len() == 1 && path[0].len() == 0),
    ensures
        parsed_path(rendered_head(path)) == path,
        free_of(rendered_head(path), 0x3f),
{
    let head = rendered_head(path);
    if path.len() == 0 {
        assert(head.skip(1) == Seq::<u8>::empty());
        assert(parsed_path(head) == path);
    } else {
        lemma_rendered_path(path);
        let rest = head.skip(1);
        let pieces = split(rest, 0x2f);
        assert(rest.len() > 0) by {
            if path.len() == 1 {
                lemma_utf8_len(path[0]);
                lemma_encoded_len(encode_utf8(path[0]), EscapeSet::Path);
                assert(pieces == seq![rest]) by {
                    lemma_encoded_free_of(encode_utf8(path[0]), EscapeSet::Path, 0x2f);
                    assert(rendered_path(path.drop_last()) == Seq::<u8>::empty());
                    assert(rest == encoded(encode_utf8(path[0]), EscapeSet::Path));
                }
            } else {
                if rest.len() == 0 {
                    assert(split(rest, 0x2f).len() == 1);
                }
            }
        }
        assert forall|i: int| 0 <= i < path.len() implies decoded(pieces[i]) == path[i] by {
            lemma_decoded_encoded(path[i], EscapeSet::Path);
        }
        assert(parsed_path(head) == path);
    }
}

/// The rendered pairs of a query.
pub open spec fn rendered_pair_list(pairs: Seq<PairText>) -> Seq<Seq<u8>> {
    Seq::new(pairs.len(), |i: int| rendered_pair(pairs[i]))
}

/// A rendered pair holds no ampersand, and lexes as the pair it was rendered
/// from.
pub proof fn lemma_parsed_rendered_pair(pair: PairText)
    ensures
        free_of(rendered_pair(pair), 0x26),
        parsed_pair(rendered_pair(pair)) == pair,
{
    let key = encoded(encode_utf8(pair.0), EscapeSet::Query);
    lemma_encoded_free_of(encode_utf8(pair.0), EscapeSet::Query, 0x26);
    lemma_encoded_free_of(encode_utf8(pair.0), EscapeSet::Query, 0x3d);
    lemma_decoded_encoded(pair.0, EscapeSet::Query);
    match pair.1 {
        None => {
            lemma_first_index_none(key, 0x3d);
        },
        Some(text) => {
            let value = encoded(encode_utf8(text), EscapeSet::Query);
            lemma_encoded_free_of(encode_utf8(text), EscapeSet::Query, 0x26);
            lemma_decoded_encoded(text, EscapeSet::Query);
            lemma_first_index_after(key, value, 0x3d);
            let whole = key + seq![0x3du8] + value;
            assert forall|i: int| 0 <= i < whole.len() implies whole[i] != 0x26 by {
                if i < key.len() {
                    assert(whole[i] == key[i]);
                } else if i > key.len() {
                    assert(whole[i] == value[i - key.len() - 1]);
                }
            }
        },
    }
}

/// Rendered pairs split at their ampersands into the rendered pairs.
pub proof fn lemma_rendered_pairs(pairs: Seq<PairText>)
    requires
        pairs.len() > 0,
    ensures
        split(rendered_pairs(pairs), 0x26) == rendered_pair_list(pairs),
    decreases pairs.len(),
{
    let last = rendered_pair(pairs.last());
    lemma_parsed_rendered_pair(pairs.last());
    if pairs.len() == 1 {
        lemma_split_whole(last, 0x26);
        assert(rendered_pair_list(pairs) == seq![last]);
    } else {
        let init = pairs.drop_last();
        lemma_rendered_pairs(init);
        lemma_split_append(rendered_pairs(init), last, 0x26);
        assert(rendered_pair_list(pairs) == rendered_pair_list(init).push(last));
    }
}

/// The single pair of the empty key without a value: written, it is the
/// empty query string, which reads as no pairs at all.
pub open spec fn is_bare_empty_key(pairs: Seq<PairText>) -> bool {
    pairs.len() == 1 && pairs[0].0.len() == 0 && pairs[0].1 is None
}

/// Lexing a rendered query string gives the pairs it was rendered from,
/// unless they are the single pair of the empty key without a value.
pub proof fn lemma_parsed_rendered_query(pairs: Seq<PairText>)
    requires
        !is_bare_empty_key(pairs),
    ensures
        parsed_query(rendered_pairs(pairs)) == pairs,
{
    let wire = rendered_pairs(pairs);
    if pairs.len() == 0 {
        assert(parsed_query(wire) == pairs);
    } else {
        lemma_rendered_pairs(pairs);
        let pieces = split(wire, 0x26);
        assert(wire.len() > 0) by {
            if pairs.len() == 1 {
                let pair = pairs[0];
                lemma_utf8_len(pair.0);
                lemma_encoded_len(encode_utf8(pair.0), EscapeSet::Query);
            } else {
                if wire.len() == 0 {
                    assert(split(wire, 0x26).len() == 1);
                }
            }
        }
        assert forall|i: int| 0 <= i < pairs.len() implies parsed_pair(pieces[i]) == pairs[i] by {
            lemma_parsed_rendered_pair(pairs[i]);
        }
        assert(parsed_query(wire) == pairs);
    }
}

/// Lexing a rendered request target gives the path it was rendered from,
/// unless that is the single empty segment.
pub proof fn lemma_parsed_rendered_target_path(
    path: Seq<SegmentText>,
    query: Option<Seq<PairText>>,
)
    requires
        !(path.len() == 1 && path[0].len() == 0),
    ensures
        parsed_target(rendered(path, query)).0 == path,
        query is None <==> parsed_target(rendered(path, query)).1 is None,
        query matches Some(pairs) ==> parsed_target(rendered(path, query)).1 == Some(
            parsed_query(rendered_pairs(pairs)),
        ),
{
    let head = rendered_head(path);
    lemma_parsed_rendered_path(path);
    match query {
        None => {
            lemma_first_index_none(head, 0x3f);
        },
        Some(pairs) => {
            lemma_first_index_after(head, rendered_pairs(pairs), 0x3f);
        },
    }
}

/// Lexing a rendered request target gives the path and the query it was
/// rendered from. Left out are the two inputs that render as another does:
/// the path of the single empty segment, and the query of the single empty
/// key without a value.
pub proof fn lemma_parsed_rendered_target(path: Seq<SegmentText>, query: Option<Seq<PairText>>)
    requires
        !(path.len() == 1 && path[0].len() == 0),
        query matches Some(pairs) ==> !is_bare_empty_key(pairs),
    ensures
        parsed_target(rendered(path, query)) == (path, query),
{
    lemma_parsed_rendered_target_path(path, query);
    match query {
        None => {},
        Some(pairs) => {
            lemma_parsed_rendered_query(pairs);
        },
    }
}

/// Whatever the segments and the query, the request target rendered for the
/// normalized path is canonical: reading it does not ask for a redirect.
pub proof fn lemma_rendered_is_canonical(path: Seq<SegmentText>, query: Option<Seq<PairText>>)
    ensures
        normalized_parse(
            parsed_target(rendered(normalized_render_path(path), query)).0,
            parsed_target(rendered(normalized_render_path(path), query)).1,
        ) is Ok,
{
    let written = normalized_render_path(path);
    if written.len() == 1 {
        lemma_dash_unescaped_escaped(path[0]);
    }
    lemma_parsed_rendered_target_path(written, query);
    lemma_normalized_parse_render(path, parsed_target(rendered(written, query)).1);
}

/// The request target that normalization redirects to is canonical: reading
/// it gives the segments that were not empty, and asks for no second
/// redirect.
pub proof fn lemma_redirect_is_canonical(path: Seq<SegmentText>, query: Option<Seq<PairText>>)
    ensures
        parsed_target(rendered(without_empty_segments(path), query)).0 == without_empty_segments(
            path,
        ),
        normalized_parse(
            parsed_target(rendered(without_empty_segments(path), query)).0,
            parsed_target(rendered(without_empty_segments(path), query)).1,
        ) is Ok,
{
    let kept = without_empty_segments(path);
    assert forall|i: int| 0 <= i < kept.len() implies (#[trigger] kept[i]).len() > 0 by {
        path.lemma_filter_pred(|segment: SegmentText| segment.len() > 0, i);
    }
    if kept.len() == 1 {
        assert(kept[0].len() > 0);
    }
    lemma_parsed_rendered_target_path(kept, query);
}

/// Reading the request target that a plain route is written as gives the
/// path and the query of the route. Left out is the query of the single
/// empty key without a value, which is written as the empty query is.
pub proof fn lemma_plain_round_trip(path: Seq<SegmentText>, query: Option<Seq<PairText>>)
    requires
        query matches Some(pairs) ==> !is_bare_empty_key(pairs),
    ensures
        normalized_parse(
            parsed_target(rendered(normalized_render_path(path), query)).0,
            parsed_target(rendered(normalized_render_path(path), query)).1,
        ) == Ok::<(Seq<SegmentText>, Option<Seq<PairText>>), Seq<char>>((path, query)),
{
    let written = normalized_render_path(path);
    if written.len() == 1 {
        lemma_dash_unescaped_escaped(path[0]);
    }
    lemma_parsed_rendered_target(written, query);
    lemma_normalized_parse_render(path, query);
}

/// As many segments are written as the path has entries.
pub proof fn lemma_written_segments_len(specs: Seq<PieceSpecModel>, fields: Seq<PieceValue>)
    ensures
        written_segments(specs, fields).len() == specs.len(),
    decreases specs.len(),
{
    if specs.len() > 0 {
        match specs[0] {
            PieceSpecModel::Literal(_) => {
                lemma_written_segments_len(specs.skip(1), fields);
            },
            PieceSpecModel::Field(_) => {
                lemma_written_segments_len(specs.skip(1), fields.skip(1));
            },
        }
    }
}

/// The segments written for the path of a template match it, with the field
/// values they were written for.
pub proof fn lemma_path_fields_written(specs: Seq<PieceSpecModel>, fields: Seq<PieceValue>)
    requires
        path_kinds(specs).len() <= fields.len(),
        kinds_of(fields).take(path_kinds(specs).len() as int) == path_kinds(specs),
    ensures
        path_fields(specs, written_segments(specs, fields)) == Some(
            fields.take(path_kinds(specs).len() as int),
        ),
    decreases specs.len(),
{
    let n = path_kinds(specs).len() as int;
    let segments = written_segments(specs, fields);
    lemma_written_segments_len(specs, fields);
    if specs.len() == 0 {
        assert(fields.take(0) == Seq::<PieceValue>::empty());
    } else {
        let rest = specs.skip(1);
        match specs[0] {
            PieceSpecModel::Literal(text) => {
                assert(segments.skip(1) == written_segments(rest, fields));
                lemma_path_fields_written(rest, fields);
            },
            PieceSpecModel::Field(kind) => {
                let tail = fields.skip(1);
                assert(segments.skip(1) == written_segments(rest, tail));
                assert(path_kinds(specs) == seq![kind] + path_kinds(rest));
                assert(kinds_of(fields).take(n)[0] == kind);
                assert(kind_of(fields[0]) == kind);
                assert(kinds_of(tail).take(n - 1) == path_kinds(rest)) by {
                    assert(kinds_of(tail).take(n - 1) =~= kinds_of(fields).take(n).skip(1));
                    assert(path_kinds(specs).skip(1) == path_kinds(rest));
                }
                lemma_path_fields_written(rest, tail);
                lemma_piece_round_trip(fields[0]);
                assert(seq![fields[0]] + tail.take(n - 1) == fields.take(n));
            },
        }
    }
}

/// The kinds of the fields of query entries, one list after another.
pub proof fn lemma_query_kinds_concat(first: Seq<QuerySpecModel>, second: Seq<QuerySpecModel>)
    ensures
        query_kinds(first + second) == query_kinds(first) + query_kinds(second),
    decreases first.len(),
{
    if first.len() == 0 {
        assert(first + second == second);
    } else {
        assert((first + second).skip(1) == first.skip(1) + second);
        lemma_query_kinds_concat(first.skip(1), second);
    }
}

/// The number of fields among the first `upto` query entries.
pub open spec fn fields_before(specs: Seq<QuerySpecModel>, upto: int) -> int {
    query_kinds(specs.take(upto)).len() as int
}

/// The pair written for one query entry, with `value` for its field if it
/// has one.
pub open spec fn written_pair(spec: QuerySpecModel, value: PieceValue) -> PairText {
    match spec.value {
        None => (spec.key, None),
        Some(PieceSpecModel::Literal(text)) => (spec.key, Some(text)),
        Some(PieceSpecModel::Field(_)) => (spec.key, Some(written_piece(value))),
    }
}

/// One entry more has one field more if it is a field entry.
pub proof fn lemma_fields_before_step(specs: Seq<QuerySpecModel>, at: int)
    requires
        0 <= at < specs.len(),
    ensures
        fields_before(specs, 0) == 0,
        fields_before(specs, at + 1) == fields_before(specs, at) + if specs[at].value matches Some(
            PieceSpecModel::Field(_),
        ) {
            1int
        } else {
            0int
        },
        fields_before(specs, at) + query_kinds(specs.skip(at)).len() == query_kinds(specs).len(),
        specs[at].value matches Some(PieceSpecModel::Field(kind)) ==> query_kinds(specs)[fields_before(
            specs,
            at,
        )] == kind,
{
    let one = seq![specs[at]];
    assert(specs.take(0) == Seq::<QuerySpecModel>::empty());
    assert(specs.take(at + 1) == specs.take(at) + one);
    lemma_query_kinds_concat(specs.take(at), one);
    assert(one.skip(1) == Seq::<QuerySpecModel>::empty());
    assert(query_kinds(one.skip(1)) == Seq::<PieceKind>::empty());
    assert(specs == specs.take(at) + specs.skip(at));
    lemma_query_kinds_concat(specs.take(at), specs.skip(at));
    assert(specs.skip(at)[0] == specs[at]);
}

/// One pair is written for each query entry: that of the entry, with the
/// value of its field.
pub proof fn lemma_written_pairs_index(specs: Seq<QuerySpecModel>, fields: Seq<PieceValue>, at: int)
    requires
        0 <= at < specs.len(),
        query_kinds(specs).len() <= fields.len(),
    ensures
        written_pairs(specs, fields).len() == specs.len(),
        written_pairs(specs, fields)[at] == written_pair(
            specs[at],
            fields[fields_before(specs, at)],
        ),
    decreases specs.len(),
{
    let rest = specs.skip(1);
    let step: int = if specs[0].value matches Some(PieceSpecModel::Field(_)) {
        1
    } else {
        0
    };
    let tail = if step == 1 {
        fields.skip(1)
    } else {
        fields
    };
    assert(written_pairs(specs, fields).skip(1) == written_pairs(rest, tail));
    lemma_written_pairs_len(rest, tail);
    if at == 0 {
        assert(specs.take(0) == Seq::<QuerySpecModel>::empty());
    } else {
        lemma_written_pairs_index(rest, tail, at - 1);
        lemma_fields_before_step(rest, at - 1);
        assert(rest.skip(at - 1)[0] == rest[at - 1]);
        assert(rest[at - 1] == specs[at]);
        assert(specs.take(at) == seq![specs[0]] + rest.take(at - 1));
        lemma_query_kinds_concat(seq![specs[0]], rest.take(at - 1));
        assert(seq![specs[0]].skip(1) == Seq::<QuerySpecModel>::empty());
        assert(query_kinds(seq![specs[0]].skip(1)) == Seq::<PieceKind>::empty());
        assert(fields_before(specs, at) == step + fields_before(rest, at - 1));
        assert(written_pairs(specs, fields)[at] == written_pairs(rest, tail)[at - 1]);
    }
}

/// As many pairs are written as the query has entries.
pub proof fn lemma_written_pairs_len(specs: Seq<QuerySpecModel>, fields: Seq<PieceValue>)
    ensures
        written_pairs(specs, fields).len() == specs.len(),
    decreases specs.len(),
{
    if specs.len() > 0 {
        match specs[0].value {
            Some(PieceSpecModel::Field(_)) => {
                lemma_written_pairs_len(specs.skip(1), fields.skip(1));
            },
            _ => {
                lemma_written_pairs_len(specs.skip(1), fields);
            },
        }
    }
}

/// Pairs of which none gives `key` a value give it no values.
pub proof fn lemma_values_of_none(pairs: Seq<PairText>, key: Seq<char>)
    requires
        forall|j: int| 0 <= j < pairs.len() ==> !((#[trigger] pairs[j]).0 == key && pairs[j].1 is Some),
    ensures
        values_of(pairs, key) == Seq::<Seq<char>>::empty(),
    decreases pairs.len(),
{
    if pairs.len() > 0 {
        let init = pairs.drop_last();
        assert forall|j: int| 0 <= j < init.len() implies !((#[trigger] init[j]).0 == key
            && init[j].1 is Some) by {
            assert(init[j] == pairs[j]);
        }
        lemma_values_of_none(init, key);
        assert(!(pairs[pairs.len() - 1].0 == key && pairs[pairs.len() - 1].1 is Some));
    }
}

/// Pairs of which exactly one gives `key` a value give it that value alone.
pub proof fn lemma_values_of_one(pairs: Seq<PairText>, key: Seq<char>, at: int, value: Seq<char>)
    requires
        0 <= at < pairs.len(),
        pairs[at] == (key, Some(value)),
        forall|j: int|
            0 <= j < pairs.len() && j != at ==> !((#[trigger] pairs[j]).0 == key
                && pairs[j].1 is Some),
    ensures
        values_of(pairs, key) == seq![value],
    decreases pairs.len(),
{
    let init = pairs.drop_last();
    let last = pairs.len() - 1;
    if at == last {
        assert forall|j: int| 0 <= j < init.len() implies !((#[trigger] init[j]).0 == key
            && init[j].1 is Some) by {
            assert(init[j] == pairs[j]);
        }
        lemma_values_of_none(init, key);
        assert(Seq::<Seq<char>>::empty().push(value) == seq![value]);
    } else {
        assert forall|j: int| 0 <= j < init.len() && j != at implies !((#[trigger] init[j]).0
            == key && init[j].1 is Some) by {
            assert(init[j] == pairs[j]);
        }
        assert(init[at] == pairs[at]);
        lemma_values_of_one(init, key, at, value);
        assert(!(pairs[last].0 == key && pairs[last].1 is Some));
    }
}

/// True when no two entries that ask for a value have the same key.
pub open spec fn distinct_valued_keys(specs: Seq<QuerySpecModel>) -> bool {
    forall|i: int, j: int|
        0 <= i < specs.len() && 0 <= j < specs.len() && i != j && (#[trigger] specs[i]).value is Some
            && (#[trigger] specs[j]).value is Some ==> specs[i].key != specs[j].key
}

/// The pairs written for the query of a template match it from any entry on,
/// with the field values they were written for.
pub proof fn lemma_query_fields_written(specs: Seq<QuerySpecModel>, fields: Seq<PieceValue>, from: int)
    requires
        0 <= from <= specs.len(),
        kinds_of(fields) == query_kinds(specs),
        distinct_valued_keys(specs),
    ensures
        query_fields(specs.skip(from), grouped(written_pairs(specs, fields))) == Some(
            fields.skip(fields_before(specs, from)),
        ),
    decreases specs.len() - from,
{
    let pairs = written_pairs(specs, fields);
    let query = grouped(pairs);
    if from == specs.len() {
        assert(specs.take(from) == specs);
        assert(fields.skip(fields.len() as int) == Seq::<PieceValue>::empty());
    } else {
        let spec = specs[from];
        let key = spec.key;
        let at = fields_before(specs, from);
        lemma_fields_before_step(specs, from);
        lemma_query_fields_written(specs, fields, from + 1);
        lemma_written_pairs_index(specs, fields, from);
        assert(specs.skip(from)[0] == spec);
        assert(specs.skip(from).skip(1) == specs.skip(from + 1));
        assert(pairs[from].0 == key);
        assert(has_key(pairs, key));
        assert(query.contains_key(key));
        if spec.value is Some {
            let text = pairs[from].1->0;
            assert forall|j: int| 0 <= j < pairs.len() && j != from implies !((
            #[trigger] pairs[j]).0 == key && pairs[j].1 is Some) by {
                lemma_written_pairs_index(specs, fields, j);
                if pairs[j].1 is Some {
                    assert(specs[j].value is Some);
                    assert(specs[from].value is Some);
                }
            }
            lemma_values_of_one(pairs, key, from, text);
            assert(single_value(query, key) == Some(text));
        }
        match spec.value {
            Some(PieceSpecModel::Field(kind)) => {
                assert(0 <= at < fields.len());
                assert(kinds_of(fields)[at] == kind);
                lemma_piece_round_trip(fields[at]);
                assert(seq![fields[at]] + fields.skip(at + 1) == fields.skip(at));
            },
            _ => {},
        }
    }
}

/// Reading the request target that a route is written as gives the route.
///
/// Left out are the routes that cannot come back: one whose request target
/// an earlier template of the table matches as well; one of a template with
/// two entries that ask for a value of the same key, which then has two
/// values; and one whose query is the single empty key without a value,
/// which is written as the empty query is.
pub proof fn lemma_route_round_trip(templates: Seq<TemplateModel>, route: RouteModel)
    requires
        is_route_of(templates, route),
        distinct_valued_keys(templates[route.variant].query),
        route_query(templates[route.variant], route.fields) matches Some(pairs)
            ==> !is_bare_empty_key(pairs),
        forall|k: int|
            0 <= k < route.variant ==> template_fields(
                #[trigger] templates[k],
                written_segments(templates[route.variant].path, route.fields),
                grouped(pairs_of(route_query(templates[route.variant], route.fields))),
            ) is None,
    ensures
        route_of(templates, route_target(templates[route.variant], route.fields)) == Ok::<
            RouteModel,
            RouteFailure,
        >(route),
{
    let template = templates[route.variant];
    let fields = route.fields;
    let n = path_kinds(template.path).len() as int;
    let segments = written_segments(template.path, fields);
    let path = route_path(template, fields);
    let query = route_query(template, fields);
    let tail = fields.skip(n);
    let pairs = written_pairs(template.query, tail);
    assert(template_kinds(template).take(n) == path_kinds(template.path));
    assert(template_kinds(template).skip(n) == query_kinds(template.query));
    assert(kinds_of(tail) == kinds_of(fields).skip(n));
    lemma_plain_round_trip(segments, query);
    assert(pairs_of(query) == pairs);
    lemma_path_fields_written(template.path, fields);
    lemma_query_fields_written(template.query, tail, 0);
    assert(template.query.skip(0) == template.query);
    assert(template.query.take(0) == Seq::<QuerySpecModel>::empty());
    assert(tail.skip(0) == tail);
    assert(fields.take(n) + tail == fields);
    assert(template_fields(template, segments, grouped(pairs)) == Some(fields));
    lemma_first_match_at(templates, segments, grouped(pairs), route.variant);
}

/// The request target that a route is written as is canonical: reading it
/// never asks for a redirect.
pub proof fn lemma_route_target_is_canonical(
    templates: Seq<TemplateModel>,
    template: TemplateModel,
    fields: Seq<PieceValue>,
)
    ensures
        !(route_of(templates, route_target(template, fields)) matches Err(
            RouteFailure::NormalizationFailed(_),
        )),
{
    lemma_rendered_is_canonical(
        written_segments(template.path, fields),
        route_query(template, fields),
    );
}

} // verus!
