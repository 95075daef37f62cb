//! What a difference between two environments is, and what it does to an
//! environment, over mathematical maps from names to values.

use vstd::prelude::*;

verus! {

/// What happened to one variable between two snapshots, as plain values.
pub enum ChangeView {
    /// The variable is new and has this value.
    Add(Seq<u8>),
    /// The variable had this value and is gone.
    Remove(Seq<u8>),
    /// The variable had the first value and has the second.
    Replace(Seq<u8>, Seq<u8>),
}

impl ChangeView {
    /// The change leaves the variable as it was: a replacement of a value by
    /// itself.
    pub open spec fn is_noop(self) -> bool {
        match self {
            ChangeView::Replace(old_value, new_value) => old_value == new_value,
            _ => false,
        }
    }

    /// The value of the variable once the change is made; `None` where the
    /// change unsets it.
    pub open spec fn outcome(self) -> Option<Seq<u8>> {
        match self {
            ChangeView::Add(value) => Some(value),
            ChangeView::Remove(_) => None,
            ChangeView::Replace(_, value) => Some(value),
        }
    }
}

/// The change to `name` that leads from `first` to `second`; `None` where the
/// name is in neither or has the same value in both.
pub open spec fn change_between(
    first: Map<Seq<u8>, Seq<u8>>,
    second: Map<Seq<u8>, Seq<u8>>,
    name: Seq<u8>,
) -> Option<ChangeView> {
    if first.contains_key(name) && second.contains_key(name) {
        if first[name] == second[name] {
            None
        } else {
            Some(ChangeView::Replace(first[name], second[name]))
        }
    } else if first.contains_key(name) {
        Some(ChangeView::Remove(first[name]))
    } else if second.contains_key(name) {
        Some(ChangeView::Add(second[name]))
    } else {
        None
    }
}

/// The changes that lead from `first` to `second`: one entry for each name
/// whose presence or value differs, and none for any other name.
pub open spec fn difference(
    first: Map<Seq<u8>, Seq<u8>>,
    second: Map<Seq<u8>, Seq<u8>>,
) -> Map<Seq<u8>, ChangeView> {
    Map::new(
        |name: Seq<u8>| change_between(first, second, name) is Some,
        |name: Seq<u8>| change_between(first, second, name)->Some_0,
    )
}

/// The environment that results when every change is made to `env`; names
/// without a change keep what they had.
pub open spec fn applied(
    env: Map<Seq<u8>, Seq<u8>>,
    changes: Map<Seq<u8>, ChangeView>,
) -> Map<Seq<u8>, Seq<u8>> {
    Map::new(
        |name: Seq<u8>|
            if changes.contains_key(name) {
                changes[name].outcome() is Some
            } else {
                env.contains_key(name)
            },
        |name: Seq<u8>|
            if changes.contains_key(name) {
                changes[name].outcome()->Some_0
            } else {
                env[name]
            },
    )
}

/// The names that a set of changes adds.
pub open spec fn additions(changes: Map<Seq<u8>, ChangeView>) -> Set<Seq<u8>> {
    Set::new(|name: Seq<u8>| changes.contains_key(name) && changes[name] is Add)
}

/// The names that a set of changes removes.
pub open spec fn removals(changes: Map<Seq<u8>, ChangeView>) -> Set<Seq<u8>> {
    Set::new(|name: Seq<u8>| changes.contains_key(name) && changes[name] is Remove)
}

/// The names whose value a set of changes replaces.
pub open spec fn replacements(changes: Map<Seq<u8>, ChangeView>) -> Set<Seq<u8>> {
    Set::new(|name: Seq<u8>| changes.contains_key(name) && changes[name] is Replace)
}

/// An environment does not differ from itself.
pub proof fn lemma_difference_same(env: Map<Seq<u8>, Seq<u8>>)
    ensures
        difference(env, env) == Map::<Seq<u8>, ChangeView>::empty(),
{
    assert(difference(env, env) =~= Map::<Seq<u8>, ChangeView>::empty());
}

/// Between two environments that share no name, every name of the first is
/// removed and every name of the second is added: there are as many removals
/// as the first has names, as many additions as the second has, and nothing
/// else.
pub proof fn lemma_difference_disjoint(
    first: Map<Seq<u8>, Seq<u8>>,
    second: Map<Seq<u8>, Seq<u8>>,
)
    requires
        first.dom().finite(),
        second.dom().finite(),
        first.dom().disjoint(second.dom()),
    ensures
        removals(difference(first, second)) == first.dom(),
        additions(difference(first, second)) == second.dom(),
        replacements(difference(first, second)) == Set::<Seq<u8>>::empty(),
        removals(difference(first, second)).len() == first.len(),
        additions(difference(first, second)).len() == second.len(),
        forall|name: Seq<u8>| #[trigger]
            first.contains_key(name) ==> difference(first, second)[name] == ChangeView::Remove(
                first[name],
            ),
        forall|name: Seq<u8>| #[trigger]
            second.contains_key(name) ==> difference(first, second)[name] == ChangeView::Add(
                second[name],
            ),
{
    let changes = difference(first, second);
    assert(removals(changes) =~= first.dom());
    assert(additions(changes) =~= second.dom());
    assert(replacements(changes) =~= Set::<Seq<u8>>::empty());
}

/// A name that both environments hold with different values is replaced,
/// the old value taken from the first and the new one from the second.
pub proof fn lemma_difference_replace(
    first: Map<Seq<u8>, Seq<u8>>,
    second: Map<Seq<u8>, Seq<u8>>,
    name: Seq<u8>,
)
    requires
        first.contains_key(name),
        second.contains_key(name),
        first[name] != second[name],
    ensures
        difference(first, second).contains_key(name),
        difference(first, second)[name] == ChangeView::Replace(first[name], second[name]),
{
}

/// No entry of a difference is a change that does nothing: none replaces a
/// value by itself, and making the change alters what the first environment
/// holds under that name.
pub proof fn lemma_difference_minimal(
    first: Map<Seq<u8>, Seq<u8>>,
    second: Map<Seq<u8>, Seq<u8>>,
    name: Seq<u8>,
)
    requires
        difference(first, second).contains_key(name),
    ensures
        !difference(first, second)[name].is_noop(),
        applied(first, difference(first, second)).contains_key(name) != first.contains_key(name)
            || applied(first, difference(first, second))[name] != first[name],
{
}

/// Making the changes from `first` to `second` in `first` gives `second`, and
/// making the changes from `second` to `first` in the result gives `first`
/// back.
pub proof fn lemma_difference_round_trip(
    first: Map<Seq<u8>, Seq<u8>>,
    second: Map<Seq<u8>, Seq<u8>>,
)
    ensures
        applied(first, difference(first, second)) == second,
        applied(applied(first, difference(first, second)), difference(second, first)) == first,
{
    assert(applied(first, difference(first, second)) =~= second);
    assert(applied(second, difference(second, first)) =~= first);
}

} // verus!
