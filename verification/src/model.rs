//! The mathematical model of grouping pairs by key.
//!
//! Text is modelled as `Seq<char>`, a decoded pair as a tuple of two texts, and
//! the grouped result either as a sequence of entries (key, values) in order of
//! first appearance, or as a map from key to values.

use vstd::prelude::*;

verus! {

/// Whether some pair of `pairs` has the key `key`.
pub open spec fn has_key(pairs: Seq<(Seq<char>, Seq<char>)>, key: Seq<char>) -> bool {
    exists|i: int| 0 <= i < pairs.len() && (#[trigger] pairs[i]).0 == key
}

/// The values that `pairs` gives for `key`, in the order in which they appear.
pub open spec fn values_of(pairs: Seq<(Seq<char>, Seq<char>)>, key: Seq<char>) -> Seq<Seq<char>>
    decreases pairs.len(),
{
    if pairs.len() == 0 {
        Seq::empty()
    } else if pairs.last().0 == key {
        values_of(pairs.drop_last(), key).push(pairs.last().1)
    } else {
        values_of(pairs.drop_last(), key)
    }
}

/// The keys of `pairs` without repetition, each at the place of its first
/// appearance.
pub open spec fn distinct_keys(pairs: Seq<(Seq<char>, Seq<char>)>) -> Seq<Seq<char>>
    decreases pairs.len(),
{
    if pairs.len() == 0 {
        Seq::empty()
    } else {
        let earlier = distinct_keys(pairs.drop_last());
        if earlier.contains(pairs.last().0) {
            earlier
        } else {
            earlier.push(pairs.last().0)
        }
    }
}

/// The entries that grouping `pairs` by key gives: one entry for each distinct
/// key, in order of first appearance, holding all the values of that key.
pub open spec fn grouped(pairs: Seq<(Seq<char>, Seq<char>)>) -> Seq<(Seq<char>, Seq<Seq<char>>)> {
    distinct_keys(pairs).map_values(|key: Seq<char>| (key, values_of(pairs, key)))
}

/// The mapping that grouping `pairs` by key gives: its domain is the set of
/// keys that appear, and each key maps to all of its values in order.
pub open spec fn aggregated(pairs: Seq<(Seq<char>, Seq<char>)>) -> Map<Seq<char>, Seq<Seq<char>>> {
    Map::new(|key: Seq<char>| has_key(pairs, key), |key: Seq<char>| values_of(pairs, key))
}

/// Whether some entry of `entries` has the key `key`.
pub open spec fn has_entry(entries: Seq<(Seq<char>, Seq<Seq<char>>)>, key: Seq<char>) -> bool {
    exists|i: int| 0 <= i < entries.len() && (#[trigger] entries[i]).0 == key
}

/// The place of an entry of `entries` with the key `key`.
pub open spec fn entry_index(entries: Seq<(Seq<char>, Seq<Seq<char>>)>, key: Seq<char>) -> int {
    choose|i: int| 0 <= i < entries.len() && (#[trigger] entries[i]).0 == key
}

/// The entries after one more pair (`key`, `value`) has arrived: the value
/// joins the end of the entry of `key` where there is one, else a new entry with
/// that single value joins the end of the entries.
pub open spec fn appended(
    entries: Seq<(Seq<char>, Seq<Seq<char>>)>,
    key: Seq<char>,
    value: Seq<char>,
) -> Seq<(Seq<char>, Seq<Seq<char>>)> {
    if has_entry(entries, key) {
        let i = entry_index(entries, key);
        entries.update(i, (key, entries[i].1.push(value)))
    } else {
        entries.push((key, seq![value]))
    }
}

/// The map that holds, for each entry, its key and values.
pub open spec fn entries_map(entries: Seq<(Seq<char>, Seq<Seq<char>>)>) -> Map<Seq<char>, Seq<Seq<char>>> {
    Map::new(
        |key: Seq<char>| has_entry(entries, key),
        |key: Seq<char>| entries[entry_index(entries, key)].1,
    )
}

/// Entries are well formed when no key occurs twice and no entry is without
/// a value.
pub open spec fn well_formed(entries: Seq<(Seq<char>, Seq<Seq<char>>)>) -> bool {
    &&& forall|i: int, j: int|
        0 <= i < j < entries.len() ==> (#[trigger] entries[i]).0 != (#[trigger] entries[j]).0
    &&& forall|i: int| 0 <= i < entries.len() ==> (#[trigger] entries[i]).1.len() > 0
}

/// One more pair adds its value to the values of its own key and leaves
/// the values of every other key as they were.
pub proof fn lemma_values_of_push(
    pairs: Seq<(Seq<char>, Seq<char>)>,
    pair: (Seq<char>, Seq<char>),
    key: Seq<char>,
)
    ensures
        values_of(pairs.push(pair), key) == if pair.0 == key {
            values_of(pairs, key).push(pair.1)
        } else {
            values_of(pairs, key)
        },
{
    assert(pairs.push(pair).drop_last() =~= pairs);
}

/// A key has a value exactly if it appears in the pairs.
pub proof fn lemma_values_of_nonempty(pairs: Seq<(Seq<char>, Seq<char>)>, key: Seq<char>)
    ensures
        values_of(pairs, key).len() > 0 <==> has_key(pairs, key),
    decreases pairs.len(),
{
    if pairs.len() > 0 {
        let earlier = pairs.drop_last();
        lemma_values_of_nonempty(earlier, key);
        if has_key(earlier, key) {
            let i = choose|i: int| 0 <= i < earlier.len() && (#[trigger] earlier[i]).0 == key;
            assert(pairs[i].0 == key);
        }
        if pairs.last().0 == key {
            assert(pairs[pairs.len() - 1].0 == key);
        } else if has_key(pairs, key) {
            let i = choose|i: int| 0 <= i < pairs.len() && (#[trigger] pairs[i]).0 == key;
            assert(earlier[i].0 == key);
        }
    }
}

/// The distinct keys are the keys that appear, and none of them is repeated.
pub proof fn lemma_distinct_keys(pairs: Seq<(Seq<char>, Seq<char>)>)
    ensures
        distinct_keys(pairs).no_duplicates(),
        forall|key: Seq<char>| #[trigger] distinct_keys(pairs).contains(key) <==> has_key(pairs, key),
    decreases pairs.len(),
{
    if pairs.len() > 0 {
        let earlier = pairs.drop_last();
        let last = pairs.last();
        lemma_distinct_keys(earlier);
        let keys = distinct_keys(pairs);
        assert forall|key: Seq<char>| #[trigger] keys.contains(key) <==> has_key(pairs, key) by {
            if keys.contains(key) {
                let i = choose|i: int| 0 <= i < keys.len() && keys[i] == key;
                if i < distinct_keys(earlier).len() {
                    assert(distinct_keys(earlier).contains(key));
                    let j = choose|j: int| 0 <= j < earlier.len() && (#[trigger] earlier[j]).0 == key;
                    assert(pairs[j].0 == key);
                } else {
                    assert(pairs[pairs.len() - 1].0 == key);
                }
            }
            if has_key(pairs, key) {
                let j = choose|j: int| 0 <= j < pairs.len() && (#[trigger] pairs[j]).0 == key;
                if j < earlier.len() {
                    assert(earlier[j].0 == key);
                    assert(distinct_keys(earlier).contains(key));
                    let i = choose|i: int|
                        0 <= i < distinct_keys(earlier).len() && distinct_keys(earlier)[i] == key;
                    assert(keys[i] == key);
                } else if distinct_keys(earlier).contains(key) {
                    let i = choose|i: int|
                        0 <= i < distinct_keys(earlier).len() && distinct_keys(earlier)[i] == key;
                    assert(keys[i] == key);
                } else {
                    assert(keys[keys.len() - 1] == key);
                }
            }
        }
    }
}

/// Grouping the pairs gives well-formed entries.
pub proof fn lemma_grouped_well_formed(pairs: Seq<(Seq<char>, Seq<char>)>)
    ensures
        well_formed(grouped(pairs)),
{
    lemma_distinct_keys(pairs);
    let keys = distinct_keys(pairs);
    let entries = grouped(pairs);
    assert forall|i: int| 0 <= i < entries.len() implies (#[trigger] entries[i]).1.len() > 0 by {
        assert(keys.contains(keys[i]));
        lemma_values_of_nonempty(pairs, keys[i]);
    }
}

/// Grouping one pair more is appending that pair to the grouping of the
/// pairs before it.
pub proof fn lemma_grouped_push(pairs: Seq<(Seq<char>, Seq<char>)>, key: Seq<char>, value: Seq<char>)
    ensures
        grouped(pairs.push((key, value))) == appended(grouped(pairs), key, value),
{
    let more = pairs.push((key, value));
    let keys = distinct_keys(pairs);
    let entries = grouped(pairs);
    lemma_distinct_keys(pairs);
    assert(more.drop_last() =~= pairs);
    assert forall|other: Seq<char>|
        values_of(more, other) == if key == other {
            values_of(pairs, other).push(value)
        } else {
            values_of(pairs, other)
        } by {
        lemma_values_of_push(pairs, (key, value), other);
    }
    if has_entry(entries, key) {
        let i = entry_index(entries, key);
        assert(keys[i] == key);
        assert(keys.contains(key));
        assert(grouped(more) =~= entries.update(i, (key, entries[i].1.push(value))));
    } else {
        if keys.contains(key) {
            let i = choose|i: int| 0 <= i < keys.len() && keys[i] == key;
            assert(entries[i].0 == key);
        }
        assert(values_of(pairs, key) =~= Seq::empty()) by {
            lemma_values_of_nonempty(pairs, key);
        }
        assert(grouped(more) =~= entries.push((key, seq![value])));
    }
}

/// Read as a map, appending a pair gives the key a list of that one value where
/// it had none, and the value at the end of its list where it had one; every
/// other key keeps its list.
pub proof fn lemma_appended_map(
    entries: Seq<(Seq<char>, Seq<Seq<char>>)>,
    key: Seq<char>,
    value: Seq<char>,
)
    requires
        well_formed(entries),
    ensures
        well_formed(appended(entries, key, value)),
        entries_map(appended(entries, key, value)) == entries_map(entries).insert(
            key,
            if entries_map(entries).contains_key(key) {
                entries_map(entries)[key].push(value)
            } else {
                seq![value]
            },
        ),
{
    let after = appended(entries, key, value);
    if has_entry(entries, key) {
        let i = entry_index(entries, key);
        assert forall|other: Seq<char>| has_entry(after, other) <==> has_entry(entries, other) by {
            if has_entry(after, other) {
                let j = entry_index(after, other);
                assert(entries[j].0 == other);
            }
            if has_entry(entries, other) {
                let j = entry_index(entries, other);
                assert(after[j].0 == other);
            }
        }
        assert forall|other: Seq<char>| has_entry(after, other) implies after[entry_index(after, other)].1
            == if other == key {
            entries[i].1.push(value)
        } else {
            entries[entry_index(entries, other)].1
        } by {
            let j = entry_index(after, other);
            assert(entries[j].0 == other);
            assert(entry_index(entries, other) == j);
        }
    } else {
        let n = entries.len() as int;
        assert(after[n].0 == key);
        assert forall|other: Seq<char>| has_entry(after, other) <==> (other == key || has_entry(entries, other)) by {
            if has_entry(after, other) {
                let j = entry_index(after, other);
                if j < n {
                    assert(entries[j].0 == other);
                }
            }
            if has_entry(entries, other) {
                let j = entry_index(entries, other);
                assert(after[j].0 == other);
            }
        }
        assert forall|other: Seq<char>| has_entry(after, other) implies after[entry_index(after, other)].1
            == if other == key {
            seq![value]
        } else {
            entries[entry_index(entries, other)].1
        } by {
            let j = entry_index(after, other);
            if j < n {
                assert(entries[j].0 == other);
                assert(entry_index(entries, other) == j);
            }
        }
    }
    assert(entries_map(after) =~= entries_map(entries).insert(
        key,
        if entries_map(entries).contains_key(key) {
            entries_map(entries)[key].push(value)
        } else {
            seq![value]
        },
    ));
}

/// The map of well-formed entries has as many keys as there are entries.
pub proof fn lemma_entries_domain(entries: Seq<(Seq<char>, Seq<Seq<char>>)>)
    requires
        well_formed(entries),
    ensures
        entries_map(entries).dom().finite(),
        entries_map(entries).dom().len() == entries.len(),
    decreases entries.len(),
{
    if entries.len() == 0 {
        assert(entries_map(entries).dom() =~= Set::empty());
    } else {
        let earlier = entries.drop_last();
        let last = entries.last();
        lemma_entries_domain(earlier);
        assert(!has_entry(earlier, last.0)) by {
            if has_entry(earlier, last.0) {
                let i = entry_index(earlier, last.0);
                assert(entries[i].0 == entries[entries.len() - 1].0);
            }
        }
        assert forall|key: Seq<char>| has_entry(entries, key) <==> (key == last.0 || has_entry(earlier, key)) by {
            if has_entry(entries, key) {
                let i = entry_index(entries, key);
                if i < earlier.len() {
                    assert(earlier[i].0 == key);
                }
            }
            if has_entry(earlier, key) {
                let i = entry_index(earlier, key);
                assert(entries[i].0 == key);
            }
            if key == last.0 {
                assert(entries[entries.len() - 1].0 == key);
            }
        }
        assert(entries_map(entries).dom() =~= entries_map(earlier).dom().insert(last.0));
    }
}

/// Values keep the order of their pairs: the values that two runs of pairs give
/// for a key, one run after the other, are the values of the first run followed
/// by those of the second.
pub proof fn lemma_values_of_concat(
    first: Seq<(Seq<char>, Seq<char>)>,
    second: Seq<(Seq<char>, Seq<char>)>,
    key: Seq<char>,
)
    ensures
        values_of(first + second, key) == values_of(first, key) + values_of(second, key),
    decreases second.len(),
{
    if second.len() == 0 {
        assert(first + second =~= first);
        assert(values_of(first, key) + values_of(second, key) =~= values_of(first, key));
    } else {
        assert((first + second).drop_last() =~= first + second.drop_last());
        lemma_values_of_concat(first, second.drop_last(), key);
        if second.last().0 == key {
            assert(values_of(first + second, key) =~= values_of(first, key) + values_of(second, key));
        }
    }
}

/// The values of a key are the second halves of the pairs that have that key,
/// in the order of the pairs.
pub proof fn lemma_values_of_filter(pairs: Seq<(Seq<char>, Seq<char>)>, key: Seq<char>)
    ensures
        values_of(pairs, key) == pairs.filter(|pair: (Seq<char>, Seq<char>)| pair.0 == key).map_values(
            |pair: (Seq<char>, Seq<char>)| pair.1,
        ),
    decreases pairs.len(),
{
    let with_key = |pair: (Seq<char>, Seq<char>)| pair.0 == key;
    let second = |pair: (Seq<char>, Seq<char>)| pair.1;
    reveal(Seq::filter);
    if pairs.len() == 0 {
        assert(values_of(pairs, key) =~= pairs.filter(with_key).map_values(second));
    } else {
        lemma_values_of_filter(pairs.drop_last(), key);
        assert(values_of(pairs, key) =~= pairs.filter(with_key).map_values(second));
    }
}

/// Grouping gives an entry exactly if there is a pair.
pub proof fn lemma_grouped_nonempty(pairs: Seq<(Seq<char>, Seq<char>)>)
    ensures
        grouped(pairs).len() > 0 <==> pairs.len() > 0,
        aggregated(pairs).dom().len() > 0 <==> pairs.len() > 0,
{
    lemma_grouped_well_formed(pairs);
    lemma_grouped_map(pairs);
    lemma_entries_domain(grouped(pairs));
}

/// The entries of the grouped pairs, read as a map, are the aggregated pairs.
pub proof fn lemma_grouped_map(pairs: Seq<(Seq<char>, Seq<char>)>)
    ensures
        entries_map(grouped(pairs)) == aggregated(pairs),
{
    let keys = distinct_keys(pairs);
    let entries = grouped(pairs);
    lemma_distinct_keys(pairs);
    assert forall|key: Seq<char>| has_entry(entries, key) <==> has_key(pairs, key) by {
        if has_entry(entries, key) {
            let i = entry_index(entries, key);
            assert(keys[i] == key);
            assert(keys.contains(key));
        }
        if has_key(pairs, key) {
            assert(keys.contains(key));
            let i = choose|i: int| 0 <= i < keys.len() && keys[i] == key;
            assert(entries[i].0 == key);
        }
    }
    assert forall|key: Seq<char>| has_entry(entries, key) implies entries[entry_index(
        entries,
        key,
    )].1 == values_of(pairs, key) by {
        let i = entry_index(entries, key);
        assert(keys[i] == key);
    }
    assert(entries_map(entries) =~= aggregated(pairs));
}

} // verus!
