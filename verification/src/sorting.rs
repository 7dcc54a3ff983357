use vstd::prelude::*;
use vstd::relations::{sorted_by, total_ordering};

verus! {

/// Values with a total order that can be compared at run time.
pub trait TotalKey: Copy + Sized {
    spec fn key_le(a: Self, b: Self) -> bool;

    proof fn lemma_key_total()
        ensures
            total_ordering(|a: Self, b: Self| Self::key_le(a, b)),
    ;

    fn le(&self, other: &Self) -> (r: bool)
        ensures
            r == Self::key_le(*self, *other),
    ;
}

/// An index as a mathematical integer.
pub open spec fn idx(u: usize) -> int {
    u as int
}

pub open spec fn key_leq<T: TotalKey>() -> spec_fn(T, T) -> bool {
    |a: T, b: T| T::key_le(a, b)
}

pub proof fn lemma_sort_keys_contains<T: TotalKey>(s: Seq<T>, x: T)
    requires
        s.sort_by(key_leq::<T>()).contains(x),
    ensures
        s.contains(x),
{
    T::lemma_key_total();
    s.lemma_sort_by_ensures(key_leq::<T>());
}

/// A position in a sequence of vertices, ordered by distance and then by position.
#[derive(Clone, Copy)]
pub struct DistancePosition {
    pub distance: u32,
    pub position: usize,
}

impl TotalKey for DistancePosition {
    open spec fn key_le(a: DistancePosition, b: DistancePosition) -> bool {
        a.distance < b.distance || (a.distance == b.distance && a.position <= b.position)
    }

    proof fn lemma_key_total() {
    }

    fn le(&self, other: &DistancePosition) -> (r: bool) {
        self.distance < other.distance || (self.distance == other.distance && self.position
            <= other.position)
    }
}

/// A position in a sequence together with a key, ordered by key and then position.
#[derive(Clone, Copy)]
pub struct KeyPosition {
    pub key: usize,
    pub position: usize,
}

impl TotalKey for KeyPosition {
    open spec fn key_le(a: KeyPosition, b: KeyPosition) -> bool {
        a.key < b.key || (a.key == b.key && a.position <= b.position)
    }

    proof fn lemma_key_total() {
    }

    fn le(&self, other: &KeyPosition) -> (r: bool) {
        self.key < other.key || (self.key == other.key && self.position <= other.position)
    }
}

/// Sorts `v` in increasing order of its key: the result is `v@.sort_by(key_leq())`.
pub fn sort_keys<T: TotalKey>(v: &Vec<T>) -> (r: Vec<T>)
    ensures
        r@ == v@.sort_by(key_leq::<T>()),
        r@.to_multiset() == v@.to_multiset(),
        sorted_by(r@, key_leq::<T>()),
{
    broadcast use vstd::seq_lib::group_to_multiset_ensures;
    let ghost leq = key_leq::<T>();
    proof {
        T::lemma_key_total();
        assert(leq == (|a: T, b: T| T::key_le(a, b)));
    }
    let mut r: Vec<T> = Vec::new();
    let mut i: usize = 0;
    while i < v.len()
        invariant
            0 <= i <= v@.len(),
            leq == key_leq::<T>(),
            total_ordering(leq),
            sorted_by(r@, leq),
            r@.to_multiset() == v@.take(i as int).to_multiset(),
        decreases v@.len() - i,
    {
        let x = v[i];
        let mut j: usize = r.len();
        while j > 0 && !r[j - 1].le(&x)
            invariant
                0 <= j <= r@.len(),
                leq == key_leq::<T>(),
                total_ordering(leq),
                sorted_by(r@, leq),
                forall|k: int| j <= k < r@.len() ==> !leq(#[trigger] r@[k], x),
            decreases j,
        {
            j = j - 1;
        }
        let ghost old_r = r@;
        proof {
            assert forall|k: int| j <= k < old_r.len() implies leq(x, #[trigger] old_r[k]) by {
                assert(leq(old_r[k], x) || leq(x, old_r[k]));
            }
            if j > 0 {
                assert(leq(old_r[j - 1], x));
                assert forall|k: int| 0 <= k < j implies leq(#[trigger] old_r[k], x) by {
                    if k < j - 1 {
                        assert(leq(old_r[k], old_r[j - 1]));
                    }
                }
            }
        }
        r.insert(j, x);
        proof {
            assert(r@ == old_r.insert(j as int, x));
            assert forall|a: int, b: int| 0 <= a < b < r@.len() implies #[trigger] leq(r@[a], r@[b]) by {
                if b < j {
                } else if b == j {
                } else if a < j {
                    assert(leq(r@[a], x));
                    assert(leq(x, r@[b]));
                } else if a == j {
                } else {
                    assert(leq(old_r[a - 1], old_r[b - 1]));
                }
            }
            assert(v@.take(i + 1) =~= v@.take(i as int).push(x));
            vstd::seq_lib::to_multiset_insert(old_r, j as int, x);
            vstd::seq_lib::to_multiset_build(v@.take(i as int), x);
        }
        i = i + 1;
    }
    proof {
        assert(v@.take(v@.len() as int) =~= v@);
        v@.lemma_sort_by_ensures(leq);
        vstd::seq_lib::lemma_sorted_unique(r@, v@.sort_by(leq), leq);
    }
    r
}

} // verus!
