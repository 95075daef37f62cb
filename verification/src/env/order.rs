//! The byte-wise lexicographic order on names.
//!
//! Names are opaque byte strings. They are compared byte by byte, never as
//! text, and the order below is the one the sorted tables of this crate keep.

use vstd::prelude::*;

verus! {

/// `a` comes strictly before `b` when both are read from position `from` on:
/// at the first position where they differ `a` holds the smaller byte, or `a`
/// ends first.
pub open spec fn precedes_from(a: Seq<u8>, b: Seq<u8>, from: int) -> bool
    decreases a.len() - from,
{
    if from < 0 || from >= b.len() {
        false
    } else if from >= a.len() {
        true
    } else if a[from] != b[from] {
        a[from] < b[from]
    } else {
        precedes_from(a, b, from + 1)
    }
}

/// `a` comes strictly before `b` in the lexicographic order of their bytes.
pub open spec fn precedes(a: Seq<u8>, b: Seq<u8>) -> bool {
    precedes_from(a, b, 0)
}

/// How one name stands to another in the lexicographic order.
#[derive(Clone, Copy, Debug, PartialEq, Eq)]
pub enum Relation {
    /// The first name comes strictly before the second.
    Before,
    /// The two names hold the same bytes.
    Same,
    /// The first name comes strictly after the second.
    After,
}

proof fn lemma_asymmetric_from(a: Seq<u8>, b: Seq<u8>, from: int)
    requires
        precedes_from(a, b, from),
    ensures
        !precedes_from(b, a, from),
    decreases a.len() - from,
{
    if from < a.len() && a[from] == b[from] {
        lemma_asymmetric_from(a, b, from + 1);
    }
}

proof fn lemma_transitive_from(a: Seq<u8>, b: Seq<u8>, c: Seq<u8>, from: int)
    requires
        precedes_from(a, b, from),
        precedes_from(b, c, from),
    ensures
        precedes_from(a, c, from),
    decreases a.len() - from,
{
    if from < a.len() && a[from] == b[from] && b[from] == c[from] {
        lemma_transitive_from(a, b, c, from + 1);
    }
}

/// No name comes before itself.
pub proof fn lemma_precedes_irreflexive(a: Seq<u8>)
    ensures
        !precedes(a, a),
{
    if precedes(a, a) {
        lemma_asymmetric_from(a, a, 0);
    }
}

/// Of two names at most one comes before the other.
pub proof fn lemma_precedes_asymmetric(a: Seq<u8>, b: Seq<u8>)
    requires
        precedes(a, b),
    ensures
        !precedes(b, a),
        a != b,
{
    lemma_asymmetric_from(a, b, 0);
}

/// The order is transitive.
pub proof fn lemma_precedes_transitive(a: Seq<u8>, b: Seq<u8>, c: Seq<u8>)
    requires
        precedes(a, b),
        precedes(b, c),
    ensures
        precedes(a, c),
{
    lemma_transitive_from(a, b, c, 0);
}

/// Compares two names byte by byte.
pub fn compare(a: &[u8], b: &[u8]) -> (relation: Relation)
    ensures
        relation is Before <==> precedes(a@, b@),
        relation is Same <==> a@ == b@,
        relation is After <==> precedes(b@, a@),
{
    let mut i: usize = 0;
    while i < a.len() && i < b.len()
        invariant
            i <= a.len(),
            i <= b.len(),
            forall|k: int| 0 <= k < i ==> a@[k] == b@[k],
            precedes(a@, b@) == precedes_from(a@, b@, i as int),
            precedes(b@, a@) == precedes_from(b@, a@, i as int),
        decreases a.len() - i,
    {
        if a[i] < b[i] {
            proof {
                lemma_precedes_asymmetric(a@, b@);
            }
            return Relation::Before;
        }
        if b[i] < a[i] {
            proof {
                lemma_precedes_asymmetric(b@, a@);
            }
            return Relation::After;
        }
        i += 1;
    }
    if i < b.len() {
        proof {
            lemma_precedes_asymmetric(a@, b@);
        }
        Relation::Before
    } else if i < a.len() {
        proof {
            lemma_precedes_asymmetric(b@, a@);
        }
        Relation::After
    } else {
        proof {
            assert(a@ =~= b@);
            lemma_precedes_irreflexive(a@);
        }
        Relation::Same
    }
}

} // verus!
