//! Lexing a request target into decoded pieces, and rendering pieces back
//! into a request target.
//!
//! A request target is `path[?query]`: path segments separated by `/`, query
//! pairs separated by `&`, a key and its value separated by the first `=`.
//! Both directions are stated over the bytes of the target.
use crate::percent::{
    ascii_text, decode, decoded, encode_append, encoded, lemma_ascii_text_bytes,
    lemma_decoded_nothing, EscapeSet,
};
use crate::round_trip::lemma_rendered_visible;
use vstd::prelude::*;
use vstd::slice::*;
use vstd::string::*;
use vstd::utf8::*;

verus! {

/// A single piece of a path, with percent decoding already applied.
pub type PathSegment = String;

/// A single key/value pair of a query string. A key without `=` has no
/// value; a key followed by `=` alone has the empty value.
pub type QueryPair = (String, Option<String>);

/// What a path segment is in contracts.
pub type SegmentText = Seq<char>;

/// What a query pair is in contracts.
pub type PairText = (Seq<char>, Option<Seq<char>>);

/// The position of the first `sep` in `items`, or the length of `items`
/// where there is none.
pub open spec fn first_index<T>(items: Seq<T>, sep: T) -> int
    decreases items.len(),
{
    if items.len() == 0 || items[0] == sep {
        0
    } else {
        1 + first_index(items.drop_first(), sep)
    }
}

/// The pieces of `items` between the occurrences of `sep`: one more piece
/// than there are separators, empty pieces included.
pub open spec fn split<T>(items: Seq<T>, sep: T) -> Seq<Seq<T>>
    decreases items.len(),
{
    if items.len() == 0 {
        seq![Seq::empty()]
    } else {
        let before = split(items.drop_last(), sep);
        if items.last() == sep {
            before.push(Seq::empty())
        } else {
            before.drop_last().push(before.last().push(items.last()))
        }
    }
}

/// The decoded segments of the path `path`: a leading `/` is ignored, the
/// empty path has no segments, and any other has one segment per piece
/// between slashes.
pub open spec fn parsed_path(path: Seq<u8>) -> Seq<SegmentText> {
    let rest = if path.len() > 0 && path[0] == 0x2f {
        path.skip(1)
    } else {
        path
    };
    if rest.len() == 0 {
        Seq::empty()
    } else {
        let pieces = split(rest, 0x2f);
        Seq::new(pieces.len(), |i: int| decoded(pieces[i]))
    }
}

/// The decoded pair that the piece `pair` of a query string stands for.
pub open spec fn parsed_pair(pair: Seq<u8>) -> PairText {
    let eq = first_index(pair, 0x3d);
    if eq >= pair.len() {
        (decoded(pair), None)
    } else {
        (decoded(pair.take(eq)), Some(decoded(pair.skip(eq + 1))))
    }
}

/// The decoded pairs of the query string `query` (without its `?`): the
/// empty string has no pairs, and any other has one pair per piece between
/// ampersands.
pub open spec fn parsed_query(query: Seq<u8>) -> Seq<PairText> {
    if query.len() == 0 {
        Seq::empty()
    } else {
        let pieces = split(query, 0x26);
        Seq::new(pieces.len(), |i: int| parsed_pair(pieces[i]))
    }
}

/// The decoded path and query of the request target `target`, split at its
/// first `?`. Without a `?` there is no query; with nothing after it the
/// query is present and empty.
pub open spec fn parsed_target(target: Seq<u8>) -> (Seq<SegmentText>, Option<Seq<PairText>>) {
    let q = first_index(target, 0x3f);
    if q >= target.len() {
        (parsed_path(target), None)
    } else {
        (parsed_path(target.take(q)), Some(parsed_query(target.skip(q + 1))))
    }
}

/// `first_index` is the least position that holds `sep`.
pub proof fn lemma_first_index<T>(items: Seq<T>, sep: T)
    ensures
        0 <= first_index(items, sep) <= items.len(),
        forall|j: int| 0 <= j < first_index(items, sep) ==> items[j] != sep,
        first_index(items, sep) < items.len() ==> items[first_index(items, sep)] == sep,
    decreases items.len(),
{
    if items.len() == 0 || items[0] == sep {
    } else {
        let rest = items.drop_first();
        lemma_first_index(rest, sep);
        assert forall|j: int| 0 <= j < first_index(items, sep) implies items[j] != sep by {
            if j > 0 {
                assert(items[j] == rest[j - 1]);
            }
        }
    }
}

/// A position that holds `sep` with none before it is the first index; where
/// no position holds `sep` the first index is the length.
pub proof fn lemma_first_index_is<T>(items: Seq<T>, sep: T, k: int)
    requires
        0 <= k <= items.len(),
        forall|j: int| 0 <= j < k ==> items[j] != sep,
        k < items.len() ==> items[k] == sep,
    ensures
        first_index(items, sep) == k,
{
    lemma_first_index(items, sep);
    let f = first_index(items, sep);
    if f < k {
        assert(items[f] != sep);
    }
}

/// The pieces `pieces` with a `sep` between each two of them.
pub open spec fn joined<T>(pieces: Seq<Seq<T>>, sep: T) -> Seq<T>
    decreases pieces.len(),
{
    if pieces.len() == 0 {
        Seq::empty()
    } else if pieces.len() == 1 {
        pieces[0]
    } else {
        joined(pieces.drop_last(), sep) + seq![sep] + pieces.last()
    }
}

/// Splitting gives at least one piece, no piece holds the separator, and the
/// pieces joined by the separator are what was split.
pub proof fn lemma_split_joined<T>(items: Seq<T>, sep: T)
    ensures
        split(items, sep).len() >= 1,
        forall|i: int, j: int|
            0 <= i < split(items, sep).len() && 0 <= j < split(items, sep)[i].len() ==> split(
                items,
                sep,
            )[i][j] != sep,
        joined(split(items, sep), sep) == items,
    decreases items.len(),
{
    let pieces = split(items, sep);
    if items.len() == 0 {
        assert(pieces == seq![Seq::<T>::empty()]);
        assert(joined(pieces, sep) == pieces[0]);
    } else {
        let init = items.drop_last();
        let x = items.last();
        let before = split(init, sep);
        lemma_split_joined(init, sep);
        assert(init.push(x) == items);
        if x == sep {
            assert(pieces.drop_last() == before);
            assert(joined(pieces, sep) == init + seq![sep] + Seq::<T>::empty());
            assert(init + seq![sep] + Seq::<T>::empty() == items);
        } else {
            let grown = before.last().push(x);
            assert(pieces == before.drop_last().push(grown));
            assert forall|i: int, j: int|
                0 <= i < pieces.len() && 0 <= j < pieces[i].len() implies pieces[i][j] != sep by {
                if i < pieces.len() - 1 {
                    assert(pieces[i] == before[i]);
                } else if j < grown.len() - 1 {
                    assert(grown[j] == before.last()[j]);
                }
            }
            if before.len() == 1 {
                assert(joined(before, sep) == before[0]);
                assert(joined(pieces, sep) == grown);
            } else {
                assert(pieces.drop_last() == before.drop_last());
                let head = joined(before.drop_last(), sep);
                assert(joined(pieces, sep) == head + seq![sep] + grown);
                assert(head + seq![sep] + grown == (head + seq![sep] + before.last()).push(x));
            }
        }
    }
}

/// A key alone and the same key followed by `=` are different pairs: the
/// first has no value, the second has the empty value.
pub proof fn lemma_pair_distinction(key: Seq<u8>)
    requires
        forall|i: int| 0 <= i < key.len() ==> key[i] != 0x3d,
    ensures
        parsed_pair(key) == (decoded(key), None::<Seq<char>>),
        parsed_pair(key.push(0x3d)) == (decoded(key), Some(Seq::<char>::empty())),
        parsed_pair(key) != parsed_pair(key.push(0x3d)),
{
    lemma_first_index_is(key, 0x3d, key.len() as int);
    let with_eq = key.push(0x3d);
    lemma_first_index_is(with_eq, 0x3d, key.len() as int);
    assert(with_eq.take(key.len() as int) == key);
    assert(with_eq.skip(key.len() as int + 1) == Seq::<u8>::empty());
    lemma_decoded_nothing();
}

/// A pair has a value exactly when its piece of the query string holds an
/// `=`.
pub proof fn lemma_pair_value(pair: Seq<u8>)
    ensures
        parsed_pair(pair).1 is Some <==> exists|i: int| 0 <= i < pair.len() && pair[i] == 0x3d,
{
    lemma_first_index(pair, 0x3d);
    let at = first_index(pair, 0x3d);
    if at < pair.len() {
        assert(pair[at] == 0x3d);
    }
}

/// Finds the first `sep` in `bytes`.
pub fn find_byte(bytes: &[u8], sep: u8) -> (at: usize)
    ensures
        at == first_index(bytes@, sep),
{
    let mut i: usize = 0;
    while i < bytes.len() && bytes[i] != sep
        invariant
            i <= bytes@.len(),
            forall|j: int| 0 <= j < i ==> bytes@[j] != sep,
        decreases bytes@.len() - i,
    {
        i = i + 1;
    }
    proof {
        lemma_first_index_is(bytes@, sep, i as int);
    }
    i
}

/// The byte sequences that a vector of slices holds.
pub open spec fn slices_view(pieces: Seq<&[u8]>) -> Seq<Seq<u8>> {
    Seq::new(pieces.len(), |i: int| pieces[i]@)
}

/// Splits `bytes` at every `sep`.
pub fn split_bytes<'a>(bytes: &'a [u8], sep: u8) -> (pieces: Vec<&'a [u8]>)
    ensures
        slices_view(pieces@) == split(bytes@, sep),
{
    let mut pieces: Vec<&[u8]> = Vec::new();
    let mut start: usize = 0;
    let mut i: usize = 0;
    proof {
        assert(bytes@.take(0).len() == 0);
        assert(bytes@.subrange(0, 0) == Seq::<u8>::empty());
        assert(slices_view(pieces@).push(Seq::<u8>::empty()) == seq![Seq::<u8>::empty()]);
    }
    while i < bytes.len()
        invariant
            start <= i <= bytes@.len(),
            split(bytes@.take(i as int), sep) == slices_view(pieces@).push(
                bytes@.subrange(start as int, i as int),
            ),
        decreases bytes@.len() - i,
    {
        let ghost done = slices_view(pieces@);
        let ghost current = bytes@.subrange(start as int, i as int);
        proof {
            let next = bytes@.take(i + 1);
            assert(next.drop_last() == bytes@.take(i as int));
            assert(next.last() == bytes@[i as int]);
            assert(done.push(current).drop_last() == done);
            assert(done.push(current).last() == current);
        }
        if bytes[i] == sep {
            pieces.push(slice_subrange(bytes, start, i));
            start = i + 1;
            proof {
                assert(slices_view(pieces@) == done.push(current));
                assert(bytes@.subrange(start as int, i + 1) == Seq::<u8>::empty());
            }
        } else {
            proof {
                assert(bytes@.subrange(start as int, i + 1) == current.push(bytes@[i as int]));
            }
        }
        i = i + 1;
    }
    proof {
        assert(bytes@.take(i as int) == bytes@);
    }
    let ghost done = slices_view(pieces@);
    pieces.push(slice_subrange(bytes, start, i));
    proof {
        assert(slices_view(pieces@) == done.push(bytes@.subrange(start as int, i as int)));
    }
    pieces
}

/// Lexes the bytes of a path into decoded segments.
pub fn parse_path_bytes(path: &[u8]) -> (segments: Vec<PathSegment>)
    ensures
        segments.deep_view() == parsed_path(path@),
{
    let rest = if path.len() > 0 && path[0] == 0x2f {
        slice_subrange(path, 1, path.len())
    } else {
        path
    };
    let mut segments: Vec<String> = Vec::new();
    if rest.len() == 0 {
        assert(segments.deep_view() == Seq::<SegmentText>::empty());
        return segments;
    }
    let pieces = split_bytes(rest, 0x2f);
    let ghost raw = split(rest@, 0x2f);
    let mut i: usize = 0;
    while i < pieces.len()
        invariant
            i <= pieces@.len(),
            slices_view(pieces@) == raw,
            segments@.len() == i,
            forall|k: int| 0 <= k < i ==> (#[trigger] segments@[k])@ == decoded(raw[k]),
        decreases pieces@.len() - i,
    {
        assert(slices_view(pieces@)[i as int] == pieces@[i as int]@);
        let text = decode(pieces[i]);
        segments.push(text);
        i = i + 1;
    }
    assert(segments.deep_view() == parsed_path(path@));
    segments
}

/// Lexes one piece of a query string into a decoded pair, split at its first
/// `=`.
pub fn parse_query_pair(pair: &[u8]) -> (res: QueryPair)
    ensures
        res.deep_view() == parsed_pair(pair@),
{
    let eq = find_byte(pair, 0x3d);
    if eq >= pair.len() {
        (decode(pair), None)
    } else {
        let key = slice_subrange(pair, 0, eq);
        let value = slice_subrange(pair, eq + 1, pair.len());
        (decode(key), Some(decode(value)))
    }
}

/// Lexes the bytes of a query string into decoded pairs.
pub fn parse_query_bytes(query: &[u8]) -> (pairs: Vec<QueryPair>)
    ensures
        pairs.deep_view() == parsed_query(query@),
{
    let mut pairs: Vec<QueryPair> = Vec::new();
    if query.len() == 0 {
        assert(pairs.deep_view() == Seq::<PairText>::empty());
        return pairs;
    }
    let pieces = split_bytes(query, 0x26);
    let ghost raw = split(query@, 0x26);
    let mut i: usize = 0;
    while i < pieces.len()
        invariant
            i <= pieces@.len(),
            slices_view(pieces@) == raw,
            pairs@.len() == i,
            forall|k: int| 0 <= k < i ==> (#[trigger] pairs@[k]).deep_view() == parsed_pair(raw[k]),
        decreases pieces@.len() - i,
    {
        assert(slices_view(pieces@)[i as int] == pieces@[i as int]@);
        let pair = parse_query_pair(pieces[i]);
        pairs.push(pair);
        i = i + 1;
    }
    assert(pairs.deep_view() == parsed_query(query@));
    pairs
}

/// Lexes just the path portion of a request target (everything before the
/// question mark) into decoded segments.
///
/// A leading slash is accepted and ignored. Trailing and repeated slashes
/// give empty segments. Malformed escapes never fail.
pub fn parse_path(path: &str) -> (segments: Vec<PathSegment>)
    ensures
        segments.deep_view() == parsed_path(path.spec_bytes()),
{
    parse_path_bytes(path.as_bytes())
}

/// Lexes a query string into decoded pairs.
///
/// The leading question mark is expected to be stripped already: one that is
/// still there becomes part of the first key.
pub fn parse_query(query: &str) -> (pairs: Vec<QueryPair>)
    ensures
        pairs.deep_view() == parsed_query(query.spec_bytes()),
{
    parse_query_bytes(query.as_bytes())
}

/// Lexes a request target into its decoded path segments and, where it holds
/// a question mark, its decoded query pairs.
pub fn parse_path_and_query(path_and_query: &str) -> (res: (
    Vec<PathSegment>,
    Option<Vec<QueryPair>>,
))
    ensures
        res.deep_view() == parsed_target(path_and_query.spec_bytes()),
{
    let bytes = path_and_query.as_bytes();
    let q = find_byte(bytes, 0x3f);
    if q >= bytes.len() {
        (parse_path_bytes(bytes), None)
    } else {
        let path = slice_subrange(bytes, 0, q);
        let query = slice_subrange(bytes, q + 1, bytes.len());
        (parse_path_bytes(path), Some(parse_query_bytes(query)))
    }
}

/// The wire form of the path segments `path`: each segment, encoded, after a
/// `/` of its own.
pub open spec fn rendered_path(path: Seq<SegmentText>) -> Seq<u8>
    decreases path.len(),
{
    if path.len() == 0 {
        Seq::empty()
    } else {
        rendered_path(path.drop_last()) + seq![0x2fu8] + encoded(
            encode_utf8(path.last()),
            EscapeSet::Path,
        )
    }
}

/// The wire form of one query pair: the encoded key, and for a pair with a
/// value a `=` and the encoded value.
pub open spec fn rendered_pair(pair: PairText) -> Seq<u8> {
    match pair.1 {
        None => encoded(encode_utf8(pair.0), EscapeSet::Query),
        Some(value) => encoded(encode_utf8(pair.0), EscapeSet::Query) + seq![0x3du8] + encoded(
            encode_utf8(value),
            EscapeSet::Query,
        ),
    }
}

/// The wire form of the query pairs `pairs`, joined by `&`.
pub open spec fn rendered_pairs(pairs: Seq<PairText>) -> Seq<u8>
    decreases pairs.len(),
{
    if pairs.len() == 0 {
        Seq::empty()
    } else if pairs.len() == 1 {
        rendered_pair(pairs[0])
    } else {
        rendered_pairs(pairs.drop_last()) + seq![0x26u8] + rendered_pair(pairs.last())
    }
}

/// The request target of a path and a query: the path, or `/` alone for the
/// path without segments, and for a query that is there a `?` and its pairs.
pub open spec fn rendered(path: Seq<SegmentText>, query: Option<Seq<PairText>>) -> Seq<u8> {
    let head = if path.len() == 0 {
        seq![0x2fu8]
    } else {
        rendered_path(path)
    };
    match query {
        None => head,
        Some(pairs) => head + seq![0x3fu8] + rendered_pairs(pairs),
    }
}

/// The text of two runs of ASCII bytes is the text of the first followed by
/// the text of the second.
pub proof fn lemma_ascii_text_concat(a: Seq<u8>, b: Seq<u8>)
    ensures
        ascii_text(a + b) == ascii_text(a) + ascii_text(b),
{
    assert(ascii_text(a + b) =~= ascii_text(a) + ascii_text(b));
}

/// Renders path segments and query pairs into a request target.
///
/// The target always begins with a slash, and is the slash alone for a path
/// without segments. A question mark is there exactly when a query is, and an
/// equal sign exactly when a pair has a value.
pub fn render_path_and_query(path: &[PathSegment], query: &Option<Vec<QueryPair>>) -> (target:
    String)
    ensures
        target@ == ascii_text(rendered(path.deep_view(), query.deep_view())),
        encode_utf8(target@) == rendered(path.deep_view(), query.deep_view()),
{
    proof {
        lemma_rendered_visible(path.deep_view(), query.deep_view());
        lemma_ascii_text_bytes(rendered(path.deep_view(), query.deep_view()));
    }
    let mut target = String::new();
    let ghost segments = path.deep_view();
    let mut i: usize = 0;
    assert(ascii_text(Seq::<u8>::empty()) == Seq::<char>::empty());
    while i < path.len()
        invariant
            i <= path@.len(),
            segments == path.deep_view(),
            target@ == ascii_text(rendered_path(segments.take(i as int))),
        decreases path@.len() - i,
    {
        let ghost before = rendered_path(segments.take(i as int));
        proof {
            assert(segments.take(i + 1).drop_last() == segments.take(i as int));
            assert(segments.take(i + 1).last() == path@[i as int]@);
            lemma_ascii_text_concat(before, seq![0x2fu8]);
            lemma_ascii_text_concat(
                before + seq![0x2fu8],
                encoded(encode_utf8(path@[i as int]@), EscapeSet::Path),
            );
            assert(ascii_text(seq![0x2fu8]) == seq!['/']);
        }
        target.push('/');
        encode_append(&mut target, path[i].as_str(), EscapeSet::Path);
        i = i + 1;
    }
    proof {
        assert(segments.take(i as int) == segments);
    }
    if path.len() == 0 {
        target.push('/');
        assert(target@ == ascii_text(seq![0x2fu8]));
    }
    let ghost head = if segments.len() == 0 {
        seq![0x2fu8]
    } else {
        rendered_path(segments)
    };
    assert(target@ == ascii_text(head));
    match query {
        None => {},
        Some(pairs) => {
            let ghost texts = pairs.deep_view();
            proof {
                lemma_ascii_text_concat(head, seq![0x3fu8]);
                assert(ascii_text(seq![0x3fu8]) == seq!['?']);
                assert(head + seq![0x3fu8] + Seq::<u8>::empty() == head + seq![0x3fu8]);
            }
            target.push('?');
            let mut j: usize = 0;
            while j < pairs.len()
                invariant
                    j <= pairs@.len(),
                    texts == pairs.deep_view(),
                    target@ == ascii_text(
                        head + seq![0x3fu8] + rendered_pairs(texts.take(j as int)),
                    ),
                decreases pairs@.len() - j,
            {
                let ghost sofar = head + seq![0x3fu8] + rendered_pairs(texts.take(j as int));
                let ghost key_bytes = encoded(encode_utf8(pairs@[j as int].0@), EscapeSet::Query);
                proof {
                    assert(texts.take(j + 1).drop_last() == texts.take(j as int));
                    assert(texts.take(j + 1).last() == pairs@[j as int].deep_view());
                    assert(texts.take(j + 1)[0] == texts[0]);
                    assert(ascii_text(seq![0x26u8]) == seq!['&']);
                    assert(ascii_text(seq![0x3du8]) == seq!['=']);
                }
                let ghost lead = if j == 0 {
                    sofar
                } else {
                    sofar + seq![0x26u8]
                };
                if j > 0 {
                    proof {
                        lemma_ascii_text_concat(sofar, seq![0x26u8]);
                    }
                    target.push('&');
                } else {
                    proof {
                        assert(rendered_pairs(texts.take(0)) == Seq::<u8>::empty());
                    }
                }
                assert(target@ == ascii_text(lead));
                let pair = &pairs[j];
                proof {
                    lemma_ascii_text_concat(lead, key_bytes);
                }
                encode_append(&mut target, pair.0.as_str(), EscapeSet::Query);
                match &pair.1 {
                    None => {
                        assert(rendered_pair(texts[j as int]) == key_bytes);
                    },
                    Some(value) => {
                        let ghost value_bytes = encoded(encode_utf8(value@), EscapeSet::Query);
                        proof {
                            lemma_ascii_text_concat(lead + key_bytes, seq![0x3du8]);
                            lemma_ascii_text_concat(lead + key_bytes + seq![0x3du8], value_bytes);
                            assert(rendered_pair(texts[j as int]) == key_bytes + seq![0x3du8]
                                + value_bytes);
                        }
                        target.push('=');
                        encode_append(&mut target, value.as_str(), EscapeSet::Query);
                    },
                }
                proof {
                    let whole = head + seq![0x3fu8] + rendered_pairs(texts.take(j + 1));
                    let this = rendered_pair(texts[j as int]);
                    assert(whole == lead + this) by {
                        if j == 0 {
                            assert(rendered_pairs(texts.take(1)) == this);
                        } else {
                            assert(rendered_pairs(texts.take(j + 1)) == rendered_pairs(
                                texts.take(j as int),
                            ) + seq![0x26u8] + this);
                            assert(whole =~= lead + this);
                        }
                    }
                    match texts[j as int].1 {
                        None => {},
                        Some(v) => {
                            assert(lead + this =~= lead + key_bytes + seq![0x3du8] + encoded(
                                encode_utf8(v),
                                EscapeSet::Query,
                            ));
                        },
                    }
                }
                j = j + 1;
            }
            proof {
                assert(texts.take(j as int) == texts);
            }
        },
    }
    target
}

} // verus!
