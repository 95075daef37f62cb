//! The joint walk over two lists in ascending order of names, as a merge
//! makes it: what holds when some pairs of each list have been passed, and
//! what one step keeps.

use vstd::prelude::*;
use crate::env::assoc::{all_precede, ascending, collect};
use crate::env::assoc::{lemma_collect_beyond, lemma_collect_take};
use crate::env::order::{lemma_precedes_transitive, precedes};

verus! {

/// The walk has passed the first `i` pairs of `left` and the first `j` pairs
/// of `right`, and every name passed in one list comes before the name that
/// is next in the other.
pub open spec fn walk<V, W>(
    left: Seq<(Seq<u8>, V)>,
    i: int,
    right: Seq<(Seq<u8>, W)>,
    j: int,
) -> bool {
    &&& ascending(left)
    &&& ascending(right)
    &&& 0 <= i <= left.len()
    &&& 0 <= j <= right.len()
    &&& i < left.len() ==> all_precede(right.take(j), left[i].0)
    &&& j < right.len() ==> all_precede(left.take(i), right[j].0)
}

/// The pairs put out so far are ascending, and all of them come before the
/// names that are next in the two lists.
pub open spec fn trails<U, V, W>(
    out: Seq<(Seq<u8>, U)>,
    left: Seq<(Seq<u8>, V)>,
    i: int,
    right: Seq<(Seq<u8>, W)>,
    j: int,
) -> bool {
    &&& ascending(out)
    &&& i < left.len() ==> all_precede(out, left[i].0)
    &&& j < right.len() ==> all_precede(out, right[j].0)
}

/// Names that precede `name` precede every later name as well.
proof fn lemma_all_precede_later<V>(pairs: Seq<(Seq<u8>, V)>, name: Seq<u8>, later: Seq<u8>)
    requires
        all_precede(pairs, name),
        precedes(name, later),
    ensures
        all_precede(pairs, later),
{
    assert forall|i: int| 0 <= i < pairs.len() implies precedes(#[trigger] pairs[i].0, later) by {
        lemma_precedes_transitive(pairs[i].0, name, later);
    }
}

/// In an ascending list the pairs before a place all precede the name at
/// that place.
proof fn lemma_ascending_take<V>(pairs: Seq<(Seq<u8>, V)>, n: int)
    requires
        ascending(pairs),
        0 <= n < pairs.len(),
    ensures
        all_precede(pairs.take(n), pairs[n].0),
{
    assert forall|i: int| 0 <= i < pairs.take(n).len() implies precedes(
        #[trigger] pairs.take(n)[i].0,
        pairs[n].0,
    ) by {
        assert(pairs.take(n)[i] == pairs[i]);
    }
}

/// One more pair of a list precedes `name` if the pairs before it do and its
/// own name does.
proof fn lemma_all_precede_take<V>(pairs: Seq<(Seq<u8>, V)>, n: int, name: Seq<u8>)
    requires
        0 <= n < pairs.len(),
        all_precede(pairs.take(n), name),
        precedes(pairs[n].0, name),
    ensures
        all_precede(pairs.take(n + 1), name),
{
    assert forall|i: int| 0 <= i < pairs.take(n + 1).len() implies precedes(
        #[trigger] pairs.take(n + 1)[i].0,
        name,
    ) by {
        if i < n {
            assert(pairs.take(n)[i] == pairs[i]);
        }
    }
}

/// A pair whose name comes after all names of an ascending list can be
/// appended to it.
proof fn lemma_ascending_push<V>(pairs: Seq<(Seq<u8>, V)>, name: Seq<u8>, value: V)
    requires
        ascending(pairs),
        all_precede(pairs, name),
    ensures
        ascending(pairs.push((name, value))),
{
}

/// A step over the next pair of `left`, whose name comes before the next
/// name of `right` or has `right` used up: the name is new to both passed
/// parts, and the output may skip it or end with it.
pub proof fn lemma_walk_one<U, V, W>(
    left: Seq<(Seq<u8>, V)>,
    i: int,
    right: Seq<(Seq<u8>, W)>,
    j: int,
    out: Seq<(Seq<u8>, U)>,
)
    requires
        walk(left, i, right, j),
        trails(out, left, i, right, j),
        i < left.len(),
        j < right.len() ==> precedes(left[i].0, right[j].0),
    ensures
        walk(left, i + 1, right, j),
        trails(out, left, i + 1, right, j),
        forall|value: U| trails(#[trigger] out.push((left[i].0, value)), left, i + 1, right, j),
        collect(left.take(i + 1)) == collect(left.take(i)).insert(left[i].0, left[i].1),
        !collect(left.take(i)).contains_key(left[i].0),
        !collect(right.take(j)).contains_key(left[i].0),
{
    let name = left[i].0;
    lemma_collect_take(left, i);
    lemma_ascending_take(left, i);
    lemma_collect_beyond(left.take(i), name);
    lemma_collect_beyond(right.take(j), name);
    if j < right.len() {
        lemma_all_precede_take(left, i, right[j].0);
    }
    if i + 1 < left.len() {
        lemma_all_precede_later(right.take(j), name, left[i + 1].0);
        lemma_all_precede_later(out, name, left[i + 1].0);
    }
    assert forall|value: U| trails(
        #[trigger] out.push((name, value)),
        left,
        i + 1,
        right,
        j,
    ) by {
        lemma_ascending_push(out, name, value);
    }
}

/// A step over the next pair of both lists, which hold the same name: the
/// name is new to both passed parts, and the output may skip it or end with
/// it.
pub proof fn lemma_walk_both<U, V, W>(
    left: Seq<(Seq<u8>, V)>,
    i: int,
    right: Seq<(Seq<u8>, W)>,
    j: int,
    out: Seq<(Seq<u8>, U)>,
)
    requires
        walk(left, i, right, j),
        trails(out, left, i, right, j),
        i < left.len(),
        j < right.len(),
        left[i].0 == right[j].0,
    ensures
        walk(left, i + 1, right, j + 1),
        trails(out, left, i + 1, right, j + 1),
        forall|value: U|
            trails(#[trigger] out.push((left[i].0, value)), left, i + 1, right, j + 1),
        collect(left.take(i + 1)) == collect(left.take(i)).insert(left[i].0, left[i].1),
        collect(right.take(j + 1)) == collect(right.take(j)).insert(right[j].0, right[j].1),
        !collect(left.take(i)).contains_key(left[i].0),
        !collect(right.take(j)).contains_key(left[i].0),
{
    let name = left[i].0;
    lemma_collect_take(left, i);
    lemma_collect_take(right, j);
    lemma_ascending_take(left, i);
    lemma_ascending_take(right, j);
    lemma_collect_beyond(left.take(i), name);
    lemma_collect_beyond(right.take(j), name);
    if i + 1 < left.len() {
        lemma_all_precede_later(right.take(j), name, left[i + 1].0);
        lemma_all_precede_take(right, j, left[i + 1].0);
        lemma_all_precede_later(out, name, left[i + 1].0);
    }
    if j + 1 < right.len() {
        lemma_all_precede_later(left.take(i), name, right[j + 1].0);
        lemma_all_precede_take(left, i, right[j + 1].0);
        lemma_all_precede_later(out, name, right[j + 1].0);
    }
    assert forall|value: U| trails(
        #[trigger] out.push((name, value)),
        left,
        i + 1,
        right,
        j + 1,
    ) by {
        lemma_ascending_push(out, name, value);
    }
}

} // verus!
