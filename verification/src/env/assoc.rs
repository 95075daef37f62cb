//! Association lists: sequences of (name, value) pairs and the mappings they
//! stand for, with the search that a list in ascending order of names allows.

use vstd::prelude::*;
use crate::env::order::{compare, precedes, Relation};
use crate::env::order::{lemma_precedes_asymmetric, lemma_precedes_transitive};

verus! {

/// The mapping that a list of pairs stands for. Where a name occurs more than
/// once the last pair that holds it wins.
pub open spec fn collect<V>(pairs: Seq<(Seq<u8>, V)>) -> Map<Seq<u8>, V>
    decreases pairs.len(),
{
    if pairs.len() == 0 {
        Map::empty()
    } else {
        collect(pairs.drop_last()).insert(pairs.last().0, pairs.last().1)
    }
}

/// The names of a list are in strictly ascending order, so none occurs twice.
pub open spec fn ascending<V>(pairs: Seq<(Seq<u8>, V)>) -> bool {
    forall|i: int, j: int| 0 <= i < j < pairs.len() ==> precedes(pairs[i].0, pairs[j].0)
}

/// Every name of the list comes strictly before `name`.
pub open spec fn all_precede<V>(pairs: Seq<(Seq<u8>, V)>, name: Seq<u8>) -> bool {
    forall|i: int| 0 <= i < pairs.len() ==> precedes(#[trigger] pairs[i].0, name)
}

/// A list stands for a finite mapping.
pub proof fn lemma_collect_finite<V>(pairs: Seq<(Seq<u8>, V)>)
    ensures
        collect(pairs).dom().finite(),
    decreases pairs.len(),
{
    if pairs.len() > 0 {
        lemma_collect_finite(pairs.drop_last());
    }
}

/// Appending a pair to a list inserts it into the mapping.
pub proof fn lemma_collect_push<V>(pairs: Seq<(Seq<u8>, V)>, name: Seq<u8>, value: V)
    ensures
        collect(pairs.push((name, value))) == collect(pairs).insert(name, value),
{
    assert(pairs.push((name, value)).drop_last() =~= pairs);
}

/// Taking one more pair of a list inserts that pair into the mapping.
pub proof fn lemma_collect_take<V>(pairs: Seq<(Seq<u8>, V)>, n: int)
    requires
        0 <= n < pairs.len(),
    ensures
        collect(pairs.take(n + 1)) == collect(pairs.take(n)).insert(pairs[n].0, pairs[n].1),
{
    assert(pairs.take(n + 1).drop_last() =~= pairs.take(n));
}

/// The names of the mapping are the names of the list.
pub proof fn lemma_collect_names<V>(pairs: Seq<(Seq<u8>, V)>, name: Seq<u8>)
    ensures
        collect(pairs).contains_key(name) <==> exists|i: int|
            0 <= i < pairs.len() && #[trigger] pairs[i].0 == name,
    decreases pairs.len(),
{
    if pairs.len() > 0 {
        let front = pairs.drop_last();
        lemma_collect_names(front, name);
        if collect(pairs).contains_key(name) {
            if pairs.last().0 == name {
                assert(pairs[pairs.len() - 1].0 == name);
            } else {
                let i = choose|i: int| 0 <= i < front.len() && #[trigger] front[i].0 == name;
                assert(pairs[i].0 == name);
            }
        }
        if exists|i: int| 0 <= i < pairs.len() && #[trigger] pairs[i].0 == name {
            let i = choose|i: int| 0 <= i < pairs.len() && #[trigger] pairs[i].0 == name;
            if i < front.len() {
                assert(front[i].0 == name);
            }
        }
    }
}

/// A name that comes after every name of a list is not in its mapping.
pub proof fn lemma_collect_beyond<V>(pairs: Seq<(Seq<u8>, V)>, name: Seq<u8>)
    requires
        all_precede(pairs, name),
    ensures
        !collect(pairs).contains_key(name),
{
    lemma_collect_names(pairs, name);
    if collect(pairs).contains_key(name) {
        let i = choose|i: int| 0 <= i < pairs.len() && #[trigger] pairs[i].0 == name;
        lemma_precedes_asymmetric(pairs[i].0, name);
    }
}

/// A pair gives the value of its name unless a later pair holds the same
/// name.
pub proof fn lemma_collect_last<V>(pairs: Seq<(Seq<u8>, V)>, i: int)
    requires
        0 <= i < pairs.len(),
        forall|j: int| i < j < pairs.len() ==> (#[trigger] pairs[j]).0 != pairs[i].0,
    ensures
        collect(pairs).contains_key(pairs[i].0),
        collect(pairs)[pairs[i].0] == pairs[i].1,
    decreases pairs.len(),
{
    if i < pairs.len() - 1 {
        let front = pairs.drop_last();
        assert forall|j: int| i < j < front.len() implies (#[trigger] front[j]).0 != front[i].0 by {
            assert(front[j] == pairs[j]);
        }
        lemma_collect_last(front, i);
        assert(pairs[pairs.len() - 1].0 != pairs[i].0);
    }
}

/// In an ascending list each pair gives the value of its name.
pub proof fn lemma_collect_value<V>(pairs: Seq<(Seq<u8>, V)>, i: int)
    requires
        ascending(pairs),
        0 <= i < pairs.len(),
    ensures
        collect(pairs).contains_key(pairs[i].0),
        collect(pairs)[pairs[i].0] == pairs[i].1,
{
    assert forall|j: int| i < j < pairs.len() implies (#[trigger] pairs[j]).0 != pairs[i].0 by {
        lemma_precedes_asymmetric(pairs[i].0, pairs[j].0);
    }
    lemma_collect_last(pairs, i);
}

/// An ascending list holds as many pairs as its mapping holds names.
pub proof fn lemma_collect_len<V>(pairs: Seq<(Seq<u8>, V)>)
    requires
        ascending(pairs),
    ensures
        collect(pairs).dom().finite(),
        collect(pairs).len() == pairs.len(),
    decreases pairs.len(),
{
    lemma_collect_finite(pairs);
    if pairs.len() > 0 {
        let front = pairs.drop_last();
        lemma_collect_len(front);
        assert(all_precede(front, pairs.last().0));
        lemma_collect_beyond(front, pairs.last().0);
    }
}

/// Every name of the list comes strictly after `name`.
pub open spec fn all_follow<V>(pairs: Seq<(Seq<u8>, V)>, name: Seq<u8>) -> bool {
    forall|i: int| 0 <= i < pairs.len() ==> precedes(name, #[trigger] pairs[i].0)
}

/// Placing a new name where the order asks for it keeps the list ascending
/// and inserts the pair into the mapping.
pub proof fn lemma_collect_insert<V>(pairs: Seq<(Seq<u8>, V)>, at: int, name: Seq<u8>, value: V)
    requires
        ascending(pairs),
        0 <= at <= pairs.len(),
        all_precede(pairs.take(at), name),
        all_follow(pairs.skip(at), name),
    ensures
        ascending(pairs.insert(at, (name, value))),
        collect(pairs.insert(at, (name, value))) == collect(pairs).insert(name, value),
    decreases pairs.len(),
{
    let grown = pairs.insert(at, (name, value));
    assert forall|i: int, j: int| 0 <= i < j < grown.len() implies precedes(
        grown[i].0,
        grown[j].0,
    ) by {
        if i < at {
            assert(pairs.take(at)[i] == pairs[i]);
        }
        if j > at {
            assert(pairs.skip(at)[j - 1 - at] == pairs[j - 1]);
        }
    }
    if at == pairs.len() {
        assert(grown =~= pairs.push((name, value)));
        lemma_collect_push(pairs, name, value);
    } else {
        let front = pairs.drop_last();
        let last = pairs.last();
        assert(front.take(at) =~= pairs.take(at));
        assert forall|i: int| 0 <= i < front.skip(at).len() implies precedes(
            name,
            #[trigger] front.skip(at)[i].0,
        ) by {
            assert(front.skip(at)[i] == pairs.skip(at)[i]);
        }
        lemma_collect_insert(front, at, name, value);
        assert(grown.drop_last() =~= front.insert(at, (name, value)));
        assert(grown.last() == last);
        assert(pairs.skip(at)[pairs.len() - 1 - at] == last);
        lemma_precedes_asymmetric(name, last.0);
        assert(collect(front).insert(name, value).insert(last.0, last.1) =~= collect(front).insert(
            last.0,
            last.1,
        ).insert(name, value));
    }
}

/// Giving the name at one place of an ascending list a new value keeps the
/// list ascending and inserts the pair into the mapping.
pub proof fn lemma_collect_update<V>(pairs: Seq<(Seq<u8>, V)>, at: int, value: V)
    requires
        ascending(pairs),
        0 <= at < pairs.len(),
    ensures
        ascending(pairs.update(at, (pairs[at].0, value))),
        collect(pairs.update(at, (pairs[at].0, value))) == collect(pairs).insert(
            pairs[at].0,
            value,
        ),
    decreases pairs.len(),
{
    let name = pairs[at].0;
    let changed = pairs.update(at, (name, value));
    let front = pairs.drop_last();
    let last = pairs.last();
    if at == pairs.len() - 1 {
        assert(changed.drop_last() =~= front);
        assert(collect(front).insert(name, value) =~= collect(front).insert(name, last.1).insert(
            name,
            value,
        ));
    } else {
        lemma_collect_update(front, at, value);
        assert(changed.drop_last() =~= front.update(at, (name, value)));
        lemma_precedes_asymmetric(name, last.0);
        assert(collect(front).insert(name, value).insert(last.0, last.1) =~= collect(front).insert(
            last.0,
            last.1,
        ).insert(name, value));
    }
}

/// The stored entries are in strictly ascending order of their names.
pub open spec fn in_order<V>(entries: Seq<(Vec<u8>, V)>) -> bool {
    forall|i: int, j: int| 0 <= i < j < entries.len() ==> precedes(entries[i].0@, entries[j].0@)
}

/// Stored entries are in order exactly when the pairs that stand for them,
/// name by name, are ascending.
pub proof fn lemma_same_order<V, W>(entries: Seq<(Vec<u8>, V)>, pairs: Seq<(Seq<u8>, W)>)
    requires
        pairs.len() == entries.len(),
        forall|i: int| 0 <= i < entries.len() ==> (#[trigger] pairs[i]).0 == entries[i].0@,
    ensures
        in_order(entries) <==> ascending(pairs),
{
    if in_order(entries) {
        assert forall|i: int, j: int| 0 <= i < j < pairs.len() implies precedes(
            pairs[i].0,
            pairs[j].0,
        ) by {
            assert(pairs[i].0 == entries[i].0@);
            assert(pairs[j].0 == entries[j].0@);
        }
    }
    if ascending(pairs) {
        assert forall|i: int, j: int| 0 <= i < j < entries.len() implies precedes(
            entries[i].0@,
            entries[j].0@,
        ) by {
            assert(pairs[i].0 == entries[i].0@);
            assert(pairs[j].0 == entries[j].0@);
        }
    }
}

/// Searches entries in ascending order of names for `name`, by bisection.
/// `Ok` holds the index of the entry with that name, `Err` the index at which
/// an entry with that name would keep the order.
pub(crate) fn locate<V>(entries: &Vec<(Vec<u8>, V)>, name: &[u8]) -> (place: Result<usize, usize>)
    requires
        in_order(entries@),
    ensures
        match place {
            Ok(at) => at < entries.len() && entries[at as int].0@ == name@,
            Err(at) => {
                &&& at <= entries.len()
                &&& forall|k: int| 0 <= k < at ==> precedes(#[trigger] entries[k].0@, name@)
                &&& forall|k: int|
                    at <= k < entries.len() ==> precedes(name@, #[trigger] entries[k].0@)
            },
        },
{
    let mut low: usize = 0;
    let mut high: usize = entries.len();
    while low < high
        invariant
            low <= high <= entries.len(),
            in_order(entries@),
            forall|k: int| 0 <= k < low ==> precedes(#[trigger] entries[k].0@, name@),
            forall|k: int| high <= k < entries.len() ==> precedes(name@, #[trigger] entries[k].0@),
        decreases high - low,
    {
        let middle = low + (high - low) / 2;
        match compare(entries[middle].0.as_slice(), name) {
            Relation::Same => {
                return Ok(middle);
            },
            Relation::Before => {
                assert forall|k: int| 0 <= k < middle + 1 implies precedes(
                    #[trigger] entries[k].0@,
                    name@,
                ) by {
                    if k < middle {
                        lemma_precedes_transitive(entries[k].0@, entries[middle as int].0@, name@);
                    }
                }
                low = middle + 1;
            },
            Relation::After => {
                assert forall|k: int| middle <= k < entries.len() implies precedes(
                    name@,
                    #[trigger] entries[k].0@,
                ) by {
                    if middle < k {
                        lemma_precedes_transitive(name@, entries[middle as int].0@, entries[k].0@);
                    }
                }
                high = middle;
            },
        }
    }
    Err(low)
}

} // verus!
