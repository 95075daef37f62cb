//! Environment snapshots and the differences between them.
//!
//! A snapshot maps variable names to values. Names and values are opaque byte
//! strings: they are compared byte by byte and never read as text, so a value
//! that is no valid UTF-8 passes through unchanged, and a variable set to the
//! empty string is not the same as a variable that is not set.

use vstd::prelude::*;
use crate::env::assoc::{ascending, collect, in_order, locate};
use crate::env::assoc::{lemma_collect_finite, lemma_collect_insert, lemma_collect_last};
use crate::env::assoc::{lemma_collect_len, lemma_collect_names, lemma_collect_push};
use crate::env::assoc::{lemma_collect_take, lemma_collect_update, lemma_collect_value};
use crate::env::assoc::lemma_same_order;
use crate::env::model::{additions, applied, difference, removals, replacements, ChangeView};
use crate::env::model::{lemma_difference_disjoint, lemma_difference_round_trip};
use crate::env::model::lemma_difference_same;
use crate::env::order::{compare, lemma_precedes_irreflexive, precedes, Relation};
use crate::env::walk::{lemma_walk_both, lemma_walk_one, trails, walk};

pub mod assoc;
pub mod model;
pub mod order;
pub mod walk;

verus! {

/// What happened to one variable between two snapshots.
#[derive(Debug, PartialEq, Eq)]
pub enum Change {
    /// The variable is set in the second snapshot only; holds its value.
    Add(Vec<u8>),
    /// The variable is set in the first snapshot only; holds the value it had.
    Remove(Vec<u8>),
    /// The variable is set in both, to different values; holds the value of
    /// the first snapshot, then that of the second.
    Replace(Vec<u8>, Vec<u8>),
}

impl View for Change {
    type V = ChangeView;

    open spec fn view(&self) -> ChangeView {
        match self {
            Change::Add(value) => ChangeView::Add(value@),
            Change::Remove(value) => ChangeView::Remove(value@),
            Change::Replace(old_value, new_value) => ChangeView::Replace(old_value@, new_value@),
        }
    }
}

impl Clone for Change {
    fn clone(&self) -> (copy: Change)
        ensures
            copy@ == self@,
    {
        match self {
            Change::Add(value) => Change::Add(copy_bytes(value)),
            Change::Remove(value) => Change::Remove(copy_bytes(value)),
            Change::Replace(old_value, new_value) => Change::Replace(
                copy_bytes(old_value),
                copy_bytes(new_value),
            ),
        }
    }
}

/// A copy of a byte string.
fn copy_bytes(bytes: &Vec<u8>) -> (copy: Vec<u8>)
    ensures
        copy@ == bytes@,
{
    bytes.clone()
}

/// Whether two byte strings hold the same bytes.
fn same_bytes(a: &Vec<u8>, b: &Vec<u8>) -> (same: bool)
    ensures
        same <==> a@ == b@,
{
    let same = a == b;
    proof {
        if same {
            assert(a@ =~= b@);
        }
    }
    same
}

/// The pairs of byte strings that a list of variables holds.
pub open spec fn listed(vars: Seq<(Vec<u8>, Vec<u8>)>) -> Seq<(Seq<u8>, Seq<u8>)> {
    vars.map_values(|pair: (Vec<u8>, Vec<u8>)| (pair.0@, pair.1@))
}

/// A snapshot of an environment: each name once, with its value. The entries
/// are kept in ascending order of their names.
#[derive(Debug, PartialEq, Eq)]
pub struct Env {
    entries: Vec<(Vec<u8>, Vec<u8>)>,
}

impl View for Env {
    type V = Map<Seq<u8>, Seq<u8>>;

    closed spec fn view(&self) -> Map<Seq<u8>, Seq<u8>> {
        collect(listed(self.entries@))
    }
}

impl Env {
    #[verifier::type_invariant]
    spec fn well_formed(&self) -> bool {
        in_order(self.entries@)
    }

    /// The number of variables in the snapshot.
    pub fn len(&self) -> (count: usize)
        ensures
            self@.dom().finite(),
            count == self@.len(),
    {
        proof {
            use_type_invariant(self);
            lemma_same_order(self.entries@, listed(self.entries@));
            lemma_collect_len(listed(self.entries@));
        }
        self.entries.len()
    }

    /// Whether the snapshot holds no variable at all.
    pub fn is_empty(&self) -> (none: bool)
        ensures
            none <==> self@ == Map::<Seq<u8>, Seq<u8>>::empty(),
    {
        proof {
            use_type_invariant(self);
            lemma_same_order(self.entries@, listed(self.entries@));
            lemma_collect_len(listed(self.entries@));
            if self.entries@.len() == 0 {
                assert(self@ =~= Map::<Seq<u8>, Seq<u8>>::empty());
            }
        }
        self.entries.len() == 0
    }

    /// The value of `name`, or `None` where the snapshot does not hold it.
    pub fn get(&self, name: &[u8]) -> (value: Option<&Vec<u8>>)
        ensures
            match value {
                Some(value) => self@.contains_key(name@) && self@[name@] == value@,
                None => !self@.contains_key(name@),
            },
    {
        proof {
            use_type_invariant(self);
            lemma_same_order(self.entries@, listed(self.entries@));
            lemma_collect_names(listed(self.entries@), name@);
        }
        match locate(&self.entries, name) {
            Ok(at) => {
                proof {
                    lemma_collect_value(listed(self.entries@), at as int);
                }
                Some(&self.entries[at].1)
            },
            Err(at) => {
                proof {
                    if self@.contains_key(name@) {
                        let pairs = listed(self.entries@);
                        let i = choose|i: int| 0 <= i < pairs.len() && #[trigger] pairs[i].0 == name@;
                        assert(pairs[i].0 == self.entries[i].0@);
                        lemma_precedes_irreflexive(name@);
                    }
                }
                None
            },
        }
    }
}

impl Env {
    /// The variables of the snapshot, each name once, in ascending order of
    /// the names.
    pub fn entries(&self) -> (entries: &Vec<(Vec<u8>, Vec<u8>)>)
        ensures
            ascending(listed(entries@)),
            collect(listed(entries@)) == self@,
    {
        proof {
            use_type_invariant(self);
            lemma_same_order(self.entries@, listed(self.entries@));
        }
        &self.entries
    }
}

impl Clone for Env {
    fn clone(&self) -> (copy: Env)
        ensures
            copy@ == self@,
    {
        proof {
            use_type_invariant(self);
        }
        let mut entries: Vec<(Vec<u8>, Vec<u8>)> = Vec::new();
        let mut i: usize = 0;
        while i < self.entries.len()
            invariant
                i <= self.entries.len(),
                listed(entries@) == listed(self.entries@).take(i as int),
            decreases self.entries.len() - i,
        {
            let ghost before = listed(entries@);
            let name = copy_bytes(&self.entries[i].0);
            let value = copy_bytes(&self.entries[i].1);
            entries.push((name, value));
            i += 1;
            proof {
                assert(listed(entries@) =~= before.push((name@, value@)));
                assert(listed(self.entries@).take(i as int) =~= before.push((name@, value@)));
            }
        }
        proof {
            assert(listed(self.entries@).take(i as int) =~= listed(self.entries@));
            lemma_same_order(self.entries@, listed(self.entries@));
            lemma_same_order(entries@, listed(entries@));
        }
        Env { entries }
    }
}

/// Sets `name` to `value` in entries kept in ascending order: a name that is
/// there already gets the new value, a new name gets its place in the order.
fn set_entry(entries: &mut Vec<(Vec<u8>, Vec<u8>)>, name: Vec<u8>, value: Vec<u8>)
    requires
        in_order(old(entries)@),
    ensures
        in_order(final(entries)@),
        collect(listed(final(entries)@)) == collect(listed(old(entries)@)).insert(name@, value@),
{
    let ghost before = listed(entries@);
    proof {
        lemma_same_order(entries@, listed(entries@));
    }
    match locate(entries, name.as_slice()) {
        Ok(at) => {
            entries[at] = (name, value);
            proof {
                lemma_collect_update(before, at as int, value@);
                assert(listed(entries@) =~= before.update(at as int, (name@, value@)));
                lemma_same_order(entries@, listed(entries@));
            }
        },
        Err(at) => {
            proof {
                assert forall|i: int| 0 <= i < before.take(at as int).len() implies precedes(
                    #[trigger] before.take(at as int)[i].0,
                    name@,
                ) by {
                    assert(before.take(at as int)[i].0 == entries[i].0@);
                }
                assert forall|i: int| 0 <= i < before.skip(at as int).len() implies precedes(
                    name@,
                    #[trigger] before.skip(at as int)[i].0,
                ) by {
                    assert(before.skip(at as int)[i].0 == entries[at + i].0@);
                }
                lemma_collect_insert(before, at as int, name@, value@);
            }
            entries.insert(at, (name, value));
            proof {
                assert(listed(entries@) =~= before.insert(at as int, (name@, value@)));
                lemma_same_order(entries@, listed(entries@));
            }
        },
    }
}

/// The snapshot of the variables that the host enumerated, each pair a name
/// and its value. Nothing is filtered or changed; where a name is listed more
/// than once, the last pair that holds it gives the value.
pub fn inherit(vars: Vec<(Vec<u8>, Vec<u8>)>) -> (env: Env)
    ensures
        env@ == collect(listed(vars@)),
        forall|name: Seq<u8>|
            env@.contains_key(name) <==> exists|i: int|
                0 <= i < vars@.len() && (#[trigger] vars@[i]).0@ == name,
        forall|i: int|
            0 <= i < vars@.len() && (forall|j: int|
                i < j < vars@.len() ==> (#[trigger] vars@[j]).0@ != vars@[i].0@) ==> env@[(
            #[trigger] vars@[i]).0@] == vars@[i].1@,
{
    let mut entries: Vec<(Vec<u8>, Vec<u8>)> = Vec::new();
    let ghost all = listed(vars@);
    for pair in it: vars
        invariant
            it.seq() == vars@,
            all == listed(vars@),
            in_order(entries@),
            collect(listed(entries@)) == collect(all.take(it.index())),
    {
        proof {
            lemma_collect_take(all, it.index());
        }
        set_entry(&mut entries, pair.0, pair.1);
    }
    proof {
        assert(all.take(vars@.len() as int) =~= all);
        assert forall|name: Seq<u8>|
            collect(all).contains_key(name) <==> exists|i: int|
                0 <= i < vars@.len() && (#[trigger] vars@[i]).0@ == name by {
            lemma_collect_names(all, name);
            if collect(all).contains_key(name) {
                let i = choose|i: int| 0 <= i < all.len() && #[trigger] all[i].0 == name;
                assert(vars@[i].0@ == name);
            }
            if exists|i: int| 0 <= i < vars@.len() && (#[trigger] vars@[i]).0@ == name {
                let i = choose|i: int| 0 <= i < vars@.len() && (#[trigger] vars@[i]).0@ == name;
                assert(all[i].0 == name);
            }
        }
        assert forall|i: int|
            0 <= i < vars@.len() && (forall|j: int|
                i < j < vars@.len() ==> (#[trigger] vars@[j]).0@ != vars@[i].0@) implies collect(
            all,
        )[(#[trigger] vars@[i]).0@] == vars@[i].1@ by {
            assert forall|j: int| i < j < all.len() implies (#[trigger] all[j]).0 != all[i].0 by {
                assert(all[j].0 == vars@[j].0@);
            }
            lemma_collect_last(all, i);
        }
    }
    Env { entries }
}

/// The changes that lead from one snapshot to another: for each name that
/// the two do not hold alike, what happened to it. A name that both hold with
/// the same value has no entry, and no entry replaces a value by itself. The
/// entries are kept in ascending order of their names.
#[derive(Debug, PartialEq, Eq)]
pub struct Diff {
    entries: Vec<(Vec<u8>, Change)>,
}

/// The names and changes, as plain values, of stored entries.
pub open spec fn recorded(entries: Seq<(Vec<u8>, Change)>) -> Seq<(Seq<u8>, ChangeView)> {
    entries.map_values(|entry: (Vec<u8>, Change)| (entry.0@, entry.1@))
}

impl View for Diff {
    type V = Map<Seq<u8>, ChangeView>;

    closed spec fn view(&self) -> Map<Seq<u8>, ChangeView> {
        collect(recorded(self.entries@))
    }
}

impl Diff {
    #[verifier::type_invariant]
    spec fn well_formed(&self) -> bool {
        &&& in_order(self.entries@)
        &&& forall|i: int|
            0 <= i < self.entries@.len() ==> !(#[trigger] self.entries@[i]).1@.is_noop()
    }

    /// The number of variables that changed.
    pub fn len(&self) -> (count: usize)
        ensures
            self@.dom().finite(),
            count == self@.len(),
    {
        proof {
            use_type_invariant(self);
            lemma_same_order(self.entries@, recorded(self.entries@));
            lemma_collect_len(recorded(self.entries@));
        }
        self.entries.len()
    }

    /// Whether nothing changed.
    pub fn is_empty(&self) -> (none: bool)
        ensures
            none <==> self@ == Map::<Seq<u8>, ChangeView>::empty(),
    {
        proof {
            use_type_invariant(self);
            lemma_same_order(self.entries@, recorded(self.entries@));
            lemma_collect_len(recorded(self.entries@));
            if self.entries@.len() == 0 {
                assert(self@ =~= Map::<Seq<u8>, ChangeView>::empty());
            }
        }
        self.entries.len() == 0
    }

    /// What happened to `name`, or `None` where it did not change. A change
    /// that is there is never a replacement of a value by itself.
    pub fn get(&self, name: &[u8]) -> (change: Option<&Change>)
        ensures
            match change {
                Some(change) => {
                    &&& self@.contains_key(name@)
                    &&& self@[name@] == change@
                    &&& !change@.is_noop()
                },
                None => !self@.contains_key(name@),
            },
    {
        proof {
            use_type_invariant(self);
            lemma_same_order(self.entries@, recorded(self.entries@));
            lemma_collect_names(recorded(self.entries@), name@);
        }
        match locate(&self.entries, name) {
            Ok(at) => {
                proof {
                    lemma_collect_value(recorded(self.entries@), at as int);
                }
                Some(&self.entries[at].1)
            },
            Err(at) => {
                proof {
                    if self@.contains_key(name@) {
                        let pairs = recorded(self.entries@);
                        let i = choose|i: int| 0 <= i < pairs.len() && #[trigger] pairs[i].0 == name@;
                        assert(pairs[i].0 == self.entries[i].0@);
                        lemma_precedes_irreflexive(name@);
                    }
                }
                None
            },
        }
    }

    /// The changes, each name once, in ascending order of the names. None of
    /// them replaces a value by itself.
    pub fn entries(&self) -> (entries: &Vec<(Vec<u8>, Change)>)
        ensures
            ascending(recorded(entries@)),
            collect(recorded(entries@)) == self@,
            forall|i: int| 0 <= i < entries@.len() ==> !(#[trigger] entries@[i]).1@.is_noop(),
    {
        proof {
            use_type_invariant(self);
            lemma_same_order(self.entries@, recorded(self.entries@));
        }
        &self.entries
    }
}

/// The changes that lead from `first`, the environment before, to `second`,
/// the environment after. A name that only `second` holds is added, one that
/// only `first` holds is removed, one that both hold with different values is
/// replaced, and one that both hold with the same value has no entry.
pub fn diff(first: Env, second: Env) -> (changes: Diff)
    ensures
        changes@ == difference(first@, second@),
        first@ == second@ ==> changes@ == Map::<Seq<u8>, ChangeView>::empty(),
        first@.dom().disjoint(second@.dom()) ==> {
            &&& removals(changes@) == first@.dom()
            &&& removals(changes@).len() == first@.len()
            &&& additions(changes@) == second@.dom()
            &&& additions(changes@).len() == second@.len()
            &&& replacements(changes@) == Set::<Seq<u8>>::empty()
        },
        forall|name: Seq<u8>|
            first@.contains_key(name) && second@.contains_key(name) && first@[name] != second@[name]
                ==> changes@.contains_key(name) && #[trigger] changes@[name] == ChangeView::Replace(
                first@[name],
                second@[name],
            ),
        forall|name: Seq<u8>|
            changes@.contains_key(name) ==> !(#[trigger] changes@[name]).is_noop(),
{
    proof {
        use_type_invariant(&first);
        use_type_invariant(&second);
        lemma_same_order(first.entries@, listed(first.entries@));
        lemma_same_order(second.entries@, listed(second.entries@));
    }
    let ghost f = listed(first.entries@);
    let ghost s = listed(second.entries@);
    let mut out: Vec<(Vec<u8>, Change)> = Vec::new();
    let mut i: usize = 0;
    let mut j: usize = 0;
    while i < first.entries.len() || j < second.entries.len()
        invariant
            f == listed(first.entries@),
            s == listed(second.entries@),
            walk(f, i as int, s, j as int),
            trails(recorded(out@), f, i as int, s, j as int),
            forall|k: int| 0 <= k < out@.len() ==> !(#[trigger] out@[k]).1@.is_noop(),
            collect(recorded(out@)) == difference(
                collect(f.take(i as int)),
                collect(s.take(j as int)),
            ),
        decreases (first.entries.len() - i) + (second.entries.len() - j),
    {
        let ghost before = recorded(out@);
        let ghost done_first = collect(f.take(i as int));
        let ghost done_second = collect(s.take(j as int));
        let relation = if i == first.entries.len() {
            Relation::After
        } else if j == second.entries.len() {
            Relation::Before
        } else {
            compare(first.entries[i].0.as_slice(), second.entries[j].0.as_slice())
        };
        match relation {
            Relation::Before => {
                let name = copy_bytes(&first.entries[i].0);
                let change = Change::Remove(copy_bytes(&first.entries[i].1));
                proof {
                    lemma_walk_one(f, i as int, s, j as int, before);
                    lemma_collect_push(before, name@, change@);
                    assert(difference(done_first.insert(name@, f[i as int].1), done_second)
                        =~= difference(done_first, done_second).insert(name@, change@));
                }
                out.push((name, change));
                i += 1;
                proof {
                    assert(recorded(out@) =~= before.push((name@, change@)));
                }
            },
            Relation::After => {
                let name = copy_bytes(&second.entries[j].0);
                let change = Change::Add(copy_bytes(&second.entries[j].1));
                proof {
                    lemma_walk_one(s, j as int, f, i as int, before);
                    lemma_collect_push(before, name@, change@);
                    assert(difference(done_first, done_second.insert(name@, s[j as int].1))
                        =~= difference(done_first, done_second).insert(name@, change@));
                }
                out.push((name, change));
                j += 1;
                proof {
                    assert(recorded(out@) =~= before.push((name@, change@)));
                }
            },
            Relation::Same => {
                let ghost next_first = done_first.insert(f[i as int].0, f[i as int].1);
                let ghost next_second = done_second.insert(s[j as int].0, s[j as int].1);
                proof {
                    lemma_walk_both(f, i as int, s, j as int, before);
                }
                if same_bytes(&first.entries[i].1, &second.entries[j].1) {
                    proof {
                        assert(difference(next_first, next_second) =~= difference(
                            done_first,
                            done_second,
                        ));
                    }
                } else {
                    let name = copy_bytes(&first.entries[i].0);
                    let change = Change::Replace(
                        copy_bytes(&first.entries[i].1),
                        copy_bytes(&second.entries[j].1),
                    );
                    proof {
                        lemma_collect_push(before, name@, change@);
                        assert(difference(next_first, next_second) =~= difference(
                            done_first,
                            done_second,
                        ).insert(name@, change@));
                    }
                    out.push((name, change));
                    proof {
                        assert(recorded(out@) =~= before.push((name@, change@)));
                    }
                }
                i += 1;
                j += 1;
            },
        }
    }
    proof {
        assert(f.take(i as int) =~= f);
        assert(s.take(j as int) =~= s);
        lemma_same_order(out@, recorded(out@));
        lemma_collect_finite(f);
        lemma_collect_finite(s);
        if first@ == second@ {
            lemma_difference_same(first@);
        }
        if first@.dom().disjoint(second@.dom()) {
            lemma_difference_disjoint(first@, second@);
        }
    }
    Diff { entries: out }
}

/// The snapshot that results when every change is made to `env`: a name that
/// is added or replaced gets the new value, a name that is removed is left
/// out, and a name without a change keeps what it had.
pub fn apply(env: &Env, changes: &Diff) -> (changed: Env)
    ensures
        changed@ == applied(env@, changes@),
        forall|target: Map<Seq<u8>, Seq<u8>>|
            changes@ == #[trigger] difference(env@, target) ==> changed@ == target,
{
    proof {
        use_type_invariant(env);
        use_type_invariant(changes);
        lemma_same_order(env.entries@, listed(env.entries@));
        lemma_same_order(changes.entries@, recorded(changes.entries@));
    }
    let ghost e = listed(env.entries@);
    let ghost c = recorded(changes.entries@);
    let mut out: Vec<(Vec<u8>, Vec<u8>)> = Vec::new();
    let mut i: usize = 0;
    let mut j: usize = 0;
    while i < env.entries.len() || j < changes.entries.len()
        invariant
            e == listed(env.entries@),
            c == recorded(changes.entries@),
            walk(e, i as int, c, j as int),
            trails(listed(out@), e, i as int, c, j as int),
            collect(listed(out@)) == applied(collect(e.take(i as int)), collect(c.take(j as int))),
        decreases (env.entries.len() - i) + (changes.entries.len() - j),
    {
        let ghost before = listed(out@);
        let ghost done_env = collect(e.take(i as int));
        let ghost done_changes = collect(c.take(j as int));
        let relation = if i == env.entries.len() {
            Relation::After
        } else if j == changes.entries.len() {
            Relation::Before
        } else {
            compare(env.entries[i].0.as_slice(), changes.entries[j].0.as_slice())
        };
        match relation {
            Relation::Before => {
                let name = copy_bytes(&env.entries[i].0);
                let value = copy_bytes(&env.entries[i].1);
                proof {
                    lemma_walk_one(e, i as int, c, j as int, before);
                    lemma_collect_push(before, name@, value@);
                    assert(applied(done_env.insert(name@, value@), done_changes) =~= applied(
                        done_env,
                        done_changes,
                    ).insert(name@, value@));
                }
                out.push((name, value));
                i += 1;
                proof {
                    assert(listed(out@) =~= before.push((name@, value@)));
                }
            },
            _ => {
                let ghost name = c[j as int].0;
                let ghost next_changes = done_changes.insert(name, c[j as int].1);
                let ghost next_env = if relation is Same {
                    done_env.insert(name, e[i as int].1)
                } else {
                    done_env
                };
                proof {
                    if relation is Same {
                        lemma_walk_both(e, i as int, c, j as int, before);
                    } else {
                        lemma_walk_one(c, j as int, e, i as int, before);
                    }
                }
                match &changes.entries[j].1 {
                    Change::Remove(_) => {
                        proof {
                            assert(applied(next_env, next_changes) =~= applied(
                                done_env,
                                done_changes,
                            ));
                        }
                    },
                    Change::Add(value) | Change::Replace(_, value) => {
                        let name = copy_bytes(&changes.entries[j].0);
                        let value = copy_bytes(value);
                        proof {
                            lemma_collect_push(before, name@, value@);
                            assert(applied(next_env, next_changes) =~= applied(
                                done_env,
                                done_changes,
                            ).insert(name@, value@));
                        }
                        out.push((name, value));
                        proof {
                            assert(listed(out@) =~= before.push((name@, value@)));
                        }
                    },
                }
                if let Relation::Same = relation {
                    i += 1;
                }
                j += 1;
            },
        }
    }
    proof {
        assert(e.take(i as int) =~= e);
        assert(c.take(j as int) =~= c);
        lemma_same_order(out@, listed(out@));
        assert forall|target: Map<Seq<u8>, Seq<u8>>|
            changes@ == #[trigger] difference(env@, target) implies applied(env@, changes@)
            == target by {
            lemma_difference_round_trip(env@, target);
        }
    }
    Env { entries: out }
}

/// The snapshot without any variable.
pub fn empty() -> (env: Env)
    ensures
        env@ == Map::<Seq<u8>, Seq<u8>>::empty(),
{
    Env { entries: Vec::new() }
}

} // verus!
