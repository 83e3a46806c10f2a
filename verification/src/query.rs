//! A grouped view of the pairs of a query string.
use crate::raw::{PairText, QueryPair};
use crate::text::text_eq;
use vstd::prelude::*;
use vstd::string::*;

verus! {

/// True when some pair of `pairs` has the key `key`, with or without a value.
pub open spec fn has_key(pairs: Seq<PairText>, key: Seq<char>) -> bool {
    exists|i: int| 0 <= i < pairs.len() && (#[trigger] pairs[i]).0 == key
}

/// The number of pairs of `pairs` that have the key `key` and no value.
pub open spec fn bare_count(pairs: Seq<PairText>, key: Seq<char>) -> nat
    decreases pairs.len(),
{
    if pairs.len() == 0 {
        0
    } else {
        let before = bare_count(pairs.drop_last(), key);
        if pairs.last().0 == key && pairs.last().1 is None {
            before + 1
        } else {
            before
        }
    }
}

/// The values that the pairs of `pairs` give the key `key`, in their order.
pub open spec fn values_of(pairs: Seq<PairText>, key: Seq<char>) -> Seq<Seq<char>>
    decreases pairs.len(),
{
    if pairs.len() == 0 {
        Seq::empty()
    } else {
        let before = values_of(pairs.drop_last(), key);
        match pairs.last().1 {
            Some(value) if pairs.last().0 == key => before.push(value),
            _ => before,
        }
    }
}

/// The pairs `pairs` grouped by key: each key that occurs, with the number of
/// its occurrences without a value and the list of its values.
pub open spec fn grouped(pairs: Seq<PairText>) -> Map<Seq<char>, (nat, Seq<Seq<char>>)> {
    Map::new(
        |key: Seq<char>| has_key(pairs, key),
        |key: Seq<char>| (bare_count(pairs, key), values_of(pairs, key)),
    )
}

/// The pairs of a query, none for the query that is not there.
pub open spec fn pairs_of(query: Option<Seq<PairText>>) -> Seq<PairText> {
    match query {
        None => Seq::empty(),
        Some(pairs) => pairs,
    }
}

/// No more pairs are without a value than there are pairs.
pub proof fn lemma_bare_count_bound(pairs: Seq<PairText>, key: Seq<char>)
    ensures
        bare_count(pairs, key) <= pairs.len(),
    decreases pairs.len(),
{
    if pairs.len() > 0 {
        lemma_bare_count_bound(pairs.drop_last(), key);
    }
}

/// One more pair has its key, and leaves every other key as it was.
pub proof fn lemma_has_key_push(pairs: Seq<PairText>, pair: PairText, key: Seq<char>)
    ensures
        has_key(pairs.push(pair), key) == (has_key(pairs, key) || pair.0 == key),
{
    let all = pairs.push(pair);
    if has_key(pairs, key) {
        let i = choose|i: int| 0 <= i < pairs.len() && (#[trigger] pairs[i]).0 == key;
        assert(all[i].0 == key);
    }
    if pair.0 == key {
        assert(all[pairs.len() as int].0 == key);
    }
    if has_key(all, key) {
        let i = choose|i: int| 0 <= i < all.len() && (#[trigger] all[i]).0 == key;
        if i < pairs.len() {
            assert(pairs[i].0 == key);
        }
    }
}

/// A key that no pair has is counted nowhere and given no value.
pub proof fn lemma_absent_key(pairs: Seq<PairText>, key: Seq<char>)
    requires
        !has_key(pairs, key),
    ensures
        bare_count(pairs, key) == 0,
        values_of(pairs, key) == Seq::<Seq<char>>::empty(),
    decreases pairs.len(),
{
    if pairs.len() > 0 {
        let before = pairs.drop_last();
        assert(pairs == before.push(pairs.last()));
        lemma_has_key_push(before, pairs.last(), key);
        lemma_absent_key(before, key);
    }
}

/// What the map holds for one key.
#[derive(Debug)]
struct QueryEntry<'a> {
    key: &'a str,
    bare: usize,
    values: Vec<&'a str>,
}

/// A simplified view of query string parameters: for each key, how often it
/// stands without a value, and the values it is given.
#[derive(Debug)]
pub struct QueryMap<'a> {
    entries: Vec<QueryEntry<'a>>,
}

/// True when no two entries have the same key.
spec fn distinct_keys(entries: Seq<QueryEntry>) -> bool {
    forall|i: int, j: int|
        0 <= i < entries.len() && 0 <= j < entries.len() && i != j ==> (#[trigger] entries[i]).key@
            != (#[trigger] entries[j]).key@
}

/// True when entry `entry` holds what the pairs `pairs` say of its key.
spec fn entry_holds(entry: QueryEntry, pairs: Seq<PairText>) -> bool {
    &&& has_key(pairs, entry.key@)
    &&& entry.bare == bare_count(pairs, entry.key@)
    &&& entry.values.deep_view() == values_of(pairs, entry.key@)
}

/// True when the entries hold the pairs `pairs`, grouped.
spec fn holds_pairs(entries: Seq<QueryEntry>, pairs: Seq<PairText>) -> bool {
    &&& distinct_keys(entries)
    &&& forall|i: int| 0 <= i < entries.len() ==> entry_holds(#[trigger] entries[i], pairs)
    &&& forall|key: Seq<char>| #[trigger]
        has_key(pairs, key) ==> exists|i: int|
            0 <= i < entries.len() && (#[trigger] entries[i]).key@ == key
}

/// The position of the entry with the key `key`, where there is one.
spec fn entry_at(entries: Seq<QueryEntry>, key: Seq<char>) -> int {
    choose|i: int| 0 <= i < entries.len() && (#[trigger] entries[i]).key@ == key
}

impl<'a> View for QueryMap<'a> {
    type V = Map<Seq<char>, (nat, Seq<Seq<char>>)>;

    closed spec fn view(&self) -> Self::V {
        let entries = self.entries@;
        Map::new(
            |key: Seq<char>|
                exists|i: int| 0 <= i < entries.len() && (#[trigger] entries[i]).key@ == key,
            |key: Seq<char>|
                (
                    entries[entry_at(entries, key)].bare as nat,
                    entries[entry_at(entries, key)].values.deep_view(),
                ),
        )
    }
}

/// Entries that hold the pairs `pairs` are viewed as their grouping.
proof fn lemma_view_of_pairs(map: QueryMap, pairs: Seq<PairText>)
    requires
        holds_pairs(map.entries@, pairs),
    ensures
        map@ == grouped(pairs),
{
    let entries = map.entries@;
    assert forall|key: Seq<char>| map@.dom().contains(key) == grouped(pairs).dom().contains(
        key,
    ) by {
        if map@.dom().contains(key) {
            let i = entry_at(entries, key);
            assert(entry_holds(entries[i], pairs));
        }
    }
    assert forall|key: Seq<char>| map@.dom().contains(key) implies map@[key] == grouped(
        pairs,
    )[key] by {
        let i = entry_at(entries, key);
        assert(entry_holds(entries[i], pairs));
    }
    assert(map@ =~= grouped(pairs));
}

/// Finds the entry with the key `name`.
fn position(entries: &Vec<QueryEntry>, name: &str) -> (at: Option<usize>)
    ensures
        match at {
            Some(i) => i < entries@.len() && entries@[i as int].key@ == name@,
            None => forall|i: int| 0 <= i < entries@.len() ==> (#[trigger] entries@[i]).key@
                != name@,
        },
{
    let mut i: usize = 0;
    while i < entries.len()
        invariant
            i <= entries@.len(),
            forall|j: int| 0 <= j < i ==> (#[trigger] entries@[j]).key@ != name@,
        decreases entries@.len() - i,
    {
        if text_eq(entries[i].key, name) {
            return Some(i);
        }
        i = i + 1;
    }
    None
}

impl<'a> QueryMap<'a> {
    #[verifier::type_invariant]
    spec fn keys_are_distinct(&self) -> bool {
        distinct_keys(self.entries@)
    }

    /// Groups the pairs of a query by key. The query that is not there gives
    /// the empty map.
    pub fn from_query_iter(query: &'a Option<Vec<QueryPair>>) -> (map: QueryMap<'a>)
        ensures
            map@ == grouped(pairs_of(query.deep_view())),
    {
        let mut entries: Vec<QueryEntry<'a>> = Vec::new();
        let ghost all = pairs_of(query.deep_view());
        match query {
            None => {
                assert(holds_pairs(entries@, all));
            },
            Some(pairs) => {
                let mut n: usize = 0;
                assert(holds_pairs(entries@, all.take(0)));
                while n < pairs.len()
                    invariant
                        n <= pairs@.len(),
                        all == pairs.deep_view(),
                        holds_pairs(entries@, all.take(n as int)),
                    decreases pairs@.len() - n,
                {
                    let ghost done = all.take(n as int);
                    let ghost pair = all[n as int];
                    let ghost old_entries = entries@;
                    let key = pairs[n].0.as_str();
                    proof {
                        assert(all.take(n + 1) == done.push(pair));
                        assert(done.push(pair).drop_last() == done);
                        assert(pair == pairs@[n as int].deep_view());
                        lemma_bare_count_bound(done, key@);
                        assert forall|k: Seq<char>| has_key(done.push(pair), k) == (has_key(
                            done,
                            k,
                        ) || pair.0 == k) by {
                            lemma_has_key_push(done, pair, k);
                        }
                    }
                    let at = match position(&entries, key) {
                        Some(at) => at,
                        None => {
                            proof {
                                assert(!has_key(done, key@)) by {
                                    if has_key(done, key@) {
                                        let i = choose|i: int|
                                            0 <= i < old_entries.len() && (
                                            #[trigger] old_entries[i]).key@ == key@;
                                        assert(old_entries[i].key@ != key@);
                                    }
                                }
                                lemma_absent_key(done, key@);
                            }
                            entries.push(QueryEntry { key, bare: 0, values: Vec::new() });
                            entries.len() - 1
                        },
                    };
                    let ghost mid_entries = entries@;
                    assert(mid_entries[at as int].key@ == key@);
                    assert(mid_entries[at as int].bare == bare_count(done, key@));
                    assert(mid_entries[at as int].values.deep_view() == values_of(done, key@));
                    match &pairs[n].1 {
                        None => {
                            entries[at].bare = entries[at].bare + 1;
                        },
                        Some(value) => {
                            entries[at].values.push(value.as_str());
                        },
                    }
                    proof {
                        let now = entries@;
                        let next = done.push(pair);
                        assert(now.len() == mid_entries.len());
                        assert forall|i: int| 0 <= i < now.len() implies (#[trigger] now[i]).key@
                            == mid_entries[i].key@ by {}
                        assert forall|i: int| 0 <= i < now.len() implies entry_holds(
                            #[trigger] now[i],
                            next,
                        ) by {
                            if i == at {
                                assert(now[i].values.deep_view() =~= values_of(next, key@));
                            } else {
                                assert(now[i] == mid_entries[i]);
                                assert(mid_entries[i] == old_entries[i]);
                                assert(entry_holds(old_entries[i], done));
                            }
                        }
                        assert forall|k: Seq<char>| #[trigger] has_key(next, k) implies exists|
                            i: int,
                        |
                            0 <= i < now.len() && (#[trigger] now[i]).key@ == k by {
                            if pair.0 == k {
                                assert(now[at as int].key@ == k);
                            } else {
                                lemma_has_key_push(done, pair, k);
                                assert(has_key(done, k));
                                let i = choose|i: int|
                                    0 <= i < old_entries.len() && (#[trigger] old_entries[i]).key@
                                        == k;
                                assert(mid_entries[i] == old_entries[i]);
                                assert(now[i].key@ == k);
                            }
                        }
                    }
                    n = n + 1;
                }
                proof {
                    assert(all.take(n as int) == all);
                }
            },
        }
        let map = QueryMap { entries };
        proof {
            lemma_view_of_pairs(map, all);
        }
        map
    }

    /// The value of the key `name`, where the query gives it exactly one.
    /// Occurrences of the key without a value are not counted.
    pub fn get_single(&self, name: &str) -> (value: Option<&'a str>)
        ensures
            match value {
                Some(text) => self@.contains_key(name@) && self@[name@].1 == seq![text@],
                None => !(self@.contains_key(name@) && self@[name@].1.len() == 1),
            },
    {
        proof {
            use_type_invariant(self);
        }
        match position(&self.entries, name) {
            None => None,
            Some(at) => {
                assert(entry_at(self.entries@, name@) == at);
                if self.entries[at].values.len() == 1 {
                    let text = self.entries[at].values[0];
                    assert(self@[name@].1 =~= seq![text@]);
                    Some(text)
                } else {
                    None
                }
            },
        }
    }

    /// Tells whether the key `name` occurs at least once, with or without a
    /// value.
    pub fn contains(&self, name: &str) -> (found: bool)
        ensures
            found == self@.contains_key(name@),
    {
        position(&self.entries, name).is_some()
    }
}

} // verus!
