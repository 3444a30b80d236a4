use vstd::prelude::*;

verus! {

/// Outcome of a three-way comparison between two keys.
pub enum Cmp {
    Lt,
    Eq,
    Gt,
}

/// Capability of a stored element: it projects an orderable key out of itself.
///
/// The order is supplied as a spec-level strict relation `lt` together with
/// proof obligations making it a strict total order, and an executable
/// three-way comparison that agrees with it. A type that is itself totally
/// ordered can serve as its own key (see the integer instances below); a
/// record type with a distinct key field implements the capability by
/// projecting that field.
pub trait Key: Sized {
    /// The ordered key type.
    type K;

    /// Strict order on keys: `lt(a, b)` means `a` sorts strictly before `b`.
    spec fn lt(a: Self::K, b: Self::K) -> bool;

    /// The key of a value, as seen by specifications.
    spec fn spec_key(self) -> Self::K;

    /// No key sorts before itself.
    proof fn lt_irreflexive(x: Self::K)
        ensures
            !Self::lt(x, x),
    ;

    /// The order composes.
    proof fn lt_transitive(x: Self::K, y: Self::K, z: Self::K)
        requires
            Self::lt(x, y),
            Self::lt(y, z),
        ensures
            Self::lt(x, z),
    ;

    /// Any two distinct keys are ordered one way or the other.
    proof fn lt_connected(x: Self::K, y: Self::K)
        ensures
            x != y ==> Self::lt(x, y) || Self::lt(y, x),
    ;

    /// Borrows the key out of a value.
    fn key(&self) -> (k: &Self::K)
        ensures
            *k == self.spec_key(),
    ;

    /// Compares two keys, consistently with `lt`.
    fn cmp_keys(a: &Self::K, b: &Self::K) -> (c: Cmp)
        ensures
            (match c {
                Cmp::Lt => Self::lt(*a, *b),
                Cmp::Eq => *a == *b,
                Cmp::Gt => Self::lt(*b, *a),
            }),
    ;
}

impl Key for u64 {
    type K = u64;

    open spec fn lt(a: u64, b: u64) -> bool {
        a < b
    }

    open spec fn spec_key(self) -> u64 {
        self
    }

    proof fn lt_irreflexive(x: u64) {
    }

    proof fn lt_transitive(x: u64, y: u64, z: u64) {
    }

    proof fn lt_connected(x: u64, y: u64) {
    }

    fn key(&self) -> (k: &u64) {
        self
    }

    fn cmp_keys(a: &u64, b: &u64) -> (c: Cmp) {
        if *a < *b {
            Cmp::Lt
        } else if *a == *b {
            Cmp::Eq
        } else {
            Cmp::Gt
        }
    }
}

impl Key for i64 {
    type K = i64;

    open spec fn lt(a: i64, b: i64) -> bool {
        a < b
    }

    open spec fn spec_key(self) -> i64 {
        self
    }

    proof fn lt_irreflexive(x: i64) {
    }

    proof fn lt_transitive(x: i64, y: i64, z: i64) {
    }

    proof fn lt_connected(x: i64, y: i64) {
    }

    fn key(&self) -> (k: &i64) {
        self
    }

    fn cmp_keys(a: &i64, b: &i64) -> (c: Cmp) {
        if *a < *b {
            Cmp::Lt
        } else if *a == *b {
            Cmp::Eq
        } else {
            Cmp::Gt
        }
    }
}

/// A record whose key is a distinct field: the tree orders these by `id`
/// alone, and an insertion with an already-present `id` overwrites the
/// whole record, `payload` included.
pub struct Record {
    pub id: u64,
    pub payload: u64,
}

impl Key for Record {
    type K = u64;

    open spec fn lt(a: u64, b: u64) -> bool {
        a < b
    }

    open spec fn spec_key(self) -> u64 {
        self.id
    }

    proof fn lt_irreflexive(x: u64) {
    }

    proof fn lt_transitive(x: u64, y: u64, z: u64) {
    }

    proof fn lt_connected(x: u64, y: u64) {
    }

    fn key(&self) -> (k: &u64) {
        &self.id
    }

    fn cmp_keys(a: &u64, b: &u64) -> (c: Cmp) {
        if *a < *b {
            Cmp::Lt
        } else if *a == *b {
            Cmp::Eq
        } else {
            Cmp::Gt
        }
    }
}

} // verus!
