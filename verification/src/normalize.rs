//! The canonical form of a path, and the dash escape that keeps the empty
//! segment out of it.
//!
//! A decoded path with an empty segment comes from a doubled or trailing
//! slash: it is answered with the request target to redirect to. So that a
//! route may still carry the empty text, every segment made of dashes alone
//! (the empty one too) is written with one dash more, and read with one dash
//! less.
use crate::percent::{ascii_text, lemma_ascii_bytes_text};
use crate::raw::{render_path_and_query, rendered, PairText, PathSegment, QueryPair, SegmentText};
use vstd::prelude::*;
use vstd::string::*;
use vstd::utf8::*;

verus! {

/// True when every character of `text` is a dash; so for the empty text.
pub open spec fn all_dashes(text: Seq<char>) -> bool {
    forall|i: int| 0 <= i < text.len() ==> text[i] == '-'
}

/// The text of `n` dashes.
pub open spec fn dashes(n: nat) -> Seq<char> {
    Seq::new(n, |i: int| '-')
}

/// The segment written for `text`: one dash more where it is all dashes.
pub open spec fn dash_escaped(text: Seq<char>) -> Seq<char> {
    if all_dashes(text) {
        text.push('-')
    } else {
        text
    }
}

/// The text read from the segment `segment`: one dash less where it is one
/// or more dashes and nothing else.
pub open spec fn dash_unescaped(segment: Seq<char>) -> Seq<char> {
    if all_dashes(segment) && segment.len() > 0 {
        segment.drop_last()
    } else {
        segment
    }
}

/// True when some segment of `path` is empty.
pub open spec fn has_empty_segment(path: Seq<SegmentText>) -> bool {
    exists|i: int| 0 <= i < path.len() && #[trigger] path[i].len() == 0
}

/// The segments of `path` that are not empty, in their order.
pub open spec fn without_empty_segments(path: Seq<SegmentText>) -> Seq<SegmentText> {
    path.filter(|segment: SegmentText| segment.len() > 0)
}

/// The path that is rendered for the segments `path`.
pub open spec fn normalized_render_path(path: Seq<SegmentText>) -> Seq<SegmentText> {
    Seq::new(path.len(), |i: int| dash_escaped(path[i]))
}

/// The segments that are read from the canonical path `path`.
pub open spec fn unescaped_path(path: Seq<SegmentText>) -> Seq<SegmentText> {
    Seq::new(path.len(), |i: int| dash_unescaped(path[i]))
}

/// What normalization makes of a decoded path and query: the request target
/// to redirect to where a segment is empty, and otherwise the segments read
/// back from their dash escape, beside the query as it came.
pub open spec fn normalized_parse(path: Seq<SegmentText>, query: Option<Seq<PairText>>) -> Result<
    (Seq<SegmentText>, Option<Seq<PairText>>),
    Seq<char>,
> {
    if has_empty_segment(path) {
        Err(ascii_text(rendered(without_empty_segments(path), query)))
    } else {
        Ok((unescaped_path(path), query))
    }
}

/// A run of `n` dashes is written as `n + 1` dashes, and `n + 1` dashes are
/// read as `n`.
pub proof fn lemma_dash_run(n: nat)
    ensures
        all_dashes(dashes(n)),
        dash_escaped(dashes(n)) == dashes(n + 1),
        dash_unescaped(dashes(n + 1)) == dashes(n),
{
    assert(dashes(n).push('-') == dashes(n + 1));
    assert(dashes(n + 1).drop_last() == dashes(n));
}

/// A text of dashes alone is the run of as many dashes.
pub proof fn lemma_all_dashes_run(text: Seq<char>)
    requires
        all_dashes(text),
    ensures
        text == dashes(text.len()),
{
    assert(text =~= dashes(text.len()));
}

/// What is written for a text is never empty, and is read as the text.
pub proof fn lemma_dash_unescaped_escaped(text: Seq<char>)
    ensures
        dash_escaped(text).len() > 0,
        dash_unescaped(dash_escaped(text)) == text,
{
    if all_dashes(text) {
        let written = text.push('-');
        assert(all_dashes(written));
        assert(written.drop_last() == text);
    } else {
        assert(text.len() > 0);
    }
}

/// Every segment that is not empty is what is written for the text it is
/// read as: the dash escape is one-to-one from all texts onto the texts that
/// are not empty.
pub proof fn lemma_dash_escaped_unescaped(segment: Seq<char>)
    requires
        segment.len() > 0,
    ensures
        dash_escaped(dash_unescaped(segment)) == segment,
{
    if all_dashes(segment) {
        let text = segment.drop_last();
        assert(all_dashes(text));
        assert(text.push('-') == segment);
    }
}

/// The path rendered for any segments is canonical, and is read as those
/// segments.
pub proof fn lemma_normalized_parse_render(path: Seq<SegmentText>, query: Option<Seq<PairText>>)
    ensures
        !has_empty_segment(normalized_render_path(path)),
        normalized_parse(normalized_render_path(path), query) == Ok::<
            (Seq<SegmentText>, Option<Seq<PairText>>),
            Seq<char>,
        >((path, query)),
{
    let written = normalized_render_path(path);
    assert forall|i: int| 0 <= i < written.len() implies (#[trigger] written[i]).len() > 0
        && dash_unescaped(written[i]) == path[i] by {
        lemma_dash_unescaped_escaped(path[i]);
    }
    assert(unescaped_path(written) == path);
}

/// `String::pop` removes the last character of the string and returns it, or
/// returns `None` and leaves the empty string as it is.
pub assume_specification[ String::pop ](s: &mut String) -> (last: Option<char>)
    ensures
        old(s)@.len() == 0 ==> last.is_none() && final(s)@ == old(s)@,
        old(s)@.len() > 0 ==> last == Some(old(s)@.last()) && final(s)@ == old(s)@.drop_last(),
;

/// How to normalize paths.
///
/// There is a single set of rules: repeated slashes (`/foo//bar///baz`) are
/// collapsed (`/foo/bar/baz`), and trailing slashes (`/foo/bar/`) are removed
/// (`/foo/bar`), so that an application has one canonical request target for
/// each route. Where normalization fails, the application is expected to
/// redirect to the normalized target.
#[derive(Clone, Copy, Debug)]
pub struct Normalization {
    rules: NormalizationRules,
}

#[derive(Clone, Copy, Debug)]
enum NormalizationRules {
    NoTrailing,
}

impl Default for Normalization {
    /// The rules that collapse repeated slashes and remove trailing ones.
    fn default() -> (rules: Self)
        ensures
            rules == Normalization::no_trailing(),
    {
        Normalization { rules: NormalizationRules::NoTrailing }
    }
}

/// Tells whether `text` is made of dashes alone.
pub fn is_all_dashes(text: &str) -> (r: bool)
    ensures
        r == all_dashes(text@),
{
    let bytes = text.as_bytes();
    let mut i: usize = 0;
    while i < bytes.len()
        invariant
            i <= bytes@.len(),
            bytes@ == encode_utf8(text@),
            forall|j: int| 0 <= j < i ==> bytes@[j] == 0x2d,
        decreases bytes@.len() - i,
    {
        if bytes[i] != 0x2d {
            assert(!all_dashes(text@)) by {
                if all_dashes(text@) {
                    is_ascii_chars_encode_utf8(text@);
                    assert(text@[i as int] == '-');
                    assert(bytes@[i as int] == 0x2d);
                }
            }
            return false;
        }
        i = i + 1;
    }
    proof {
        lemma_ascii_bytes_text(text@);
        assert forall|j: int| 0 <= j < text@.len() implies text@[j] == '-' by {
            assert(bytes@[j] == text@[j] as u8);
        }
    }
    true
}

/// Tells whether some segment of `path` is empty.
pub fn has_empty(path: &[PathSegment]) -> (found: bool)
    ensures
        found == has_empty_segment(path.deep_view()),
{
    let ghost texts = path.deep_view();
    let mut i: usize = 0;
    while i < path.len()
        invariant
            i <= path@.len(),
            texts == path.deep_view(),
            forall|j: int| 0 <= j < i ==> (#[trigger] texts[j]).len() > 0,
        decreases path@.len() - i,
    {
        if path[i].as_str().is_empty() {
            assert(texts[i as int].len() == 0);
            return true;
        }
        i = i + 1;
    }
    false
}

/// Copies the segments of `path` that are not empty.
pub fn keep_filled(path: &[PathSegment]) -> (kept: Vec<PathSegment>)
    ensures
        kept.deep_view() == without_empty_segments(path.deep_view()),
{
    let ghost texts = path.deep_view();
    let mut kept: Vec<PathSegment> = Vec::new();
    let mut k: usize = 0;
    while k < path.len()
        invariant
            k <= path@.len(),
            texts == path.deep_view(),
            kept.deep_view() == without_empty_segments(texts.take(k as int)),
        decreases path@.len() - k,
    {
        proof {
            reveal(Seq::filter);
            assert(texts.take(k + 1).drop_last() == texts.take(k as int));
            assert(texts.take(k + 1).last() == texts[k as int]);
        }
        if !path[k].as_str().is_empty() {
            let ghost before = kept.deep_view();
            kept.push(path[k].clone());
            assert(kept.deep_view() == before.push(texts[k as int]));
        }
        k = k + 1;
    }
    proof {
        assert(texts.take(k as int) == texts);
    }
    kept
}

/// Takes the last character off `s`.
fn drop_one(s: &mut String)
    ensures
        final(s)@ == if old(s)@.len() > 0 {
            old(s)@.drop_last()
        } else {
            old(s)@
        },
{
    s.pop();
}

impl Normalization {
    /// The single set of rules there is.
    pub closed spec fn no_trailing() -> Normalization {
        Normalization { rules: NormalizationRules::NoTrailing }
    }

    /// Applies the normalization rules to an incoming path and query: returns
    /// them for a canonical path, each all-dash segment read with one dash
    /// less, or else the normalized request target.
    pub fn normalize_parse(&self, path: Vec<PathSegment>, query: Option<Vec<QueryPair>>) -> (res:
        Result<(Vec<PathSegment>, Option<Vec<QueryPair>>), String>)
        ensures
            match res {
                Ok(parts) => normalized_parse(path.deep_view(), query.deep_view()) == Ok::<
                    (Seq<SegmentText>, Option<Seq<PairText>>),
                    Seq<char>,
                >(parts.deep_view()),
                Err(target) => normalized_parse(path.deep_view(), query.deep_view()) == Err::<
                    (Seq<SegmentText>, Option<Seq<PairText>>),
                    Seq<char>,
                >(target@),
            },
    {
        let ghost texts = path.deep_view();
        let mut path = path;
        if has_empty(path.as_slice()) {
            let kept = keep_filled(path.as_slice());
            return Err(render_path_and_query(kept.as_slice(), &query));
        }
        let mut n: usize = 0;
        while n < path.len()
            invariant
                n <= path@.len(),
                path@.len() == texts.len(),
                forall|j: int| 0 <= j < n ==> (#[trigger] path@[j])@ == dash_unescaped(texts[j]),
                forall|j: int| n <= j < path@.len() ==> (#[trigger] path@[j])@ == texts[j],
            decreases path@.len() - n,
        {
            if is_all_dashes(path[n].as_str()) {
                drop_one(&mut path[n]);
            }
            n = n + 1;
        }
        proof {
            assert(!has_empty_segment(texts));
            assert(path.deep_view() == unescaped_path(texts));
        }
        Ok((path, query))
    }

    /// Applies the normalization rules to outgoing path segments: each
    /// all-dash segment, the empty one too, is written with one dash more.
    pub fn normalize_render_path(&self, path: Vec<PathSegment>) -> (res: Vec<PathSegment>)
        ensures
            res.deep_view() == normalized_render_path(path.deep_view()),
    {
        let ghost texts = path.deep_view();
        let mut path = path;
        let mut n: usize = 0;
        while n < path.len()
            invariant
                n <= path@.len(),
                path@.len() == texts.len(),
                forall|j: int| 0 <= j < n ==> (#[trigger] path@[j])@ == dash_escaped(texts[j]),
                forall|j: int| n <= j < path@.len() ==> (#[trigger] path@[j])@ == texts[j],
            decreases path@.len() - n,
        {
            if is_all_dashes(path[n].as_str()) {
                path[n].push('-');
            }
            n = n + 1;
        }
        assert(path.deep_view() == normalized_render_path(texts));
        path
    }
}

} // verus!
