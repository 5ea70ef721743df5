//! Orders on elements: every order used by the sort ranks its elements by an
//! integer, so that `a` comes before `b` exactly when `rank(a) < rank(b)`.
use vstd::prelude::*;

verus! {

/// An element type with a natural total order.
pub trait Sortable: Copy {
    /// Position of the value in the natural order.
    spec fn rank(&self) -> int;

    /// Strict comparison in the natural order.
    fn less_than(&self, other: &Self) -> (r: bool)
        ensures
            r == (self.rank() < other.rank()),
    ;

    /// Values of equal rank are equal.
    proof fn lemma_rank_injective(a: Self, b: Self)
        ensures
            a.rank() == b.rank() ==> a == b,
    ;
}

impl Sortable for u8 {
    open spec fn rank(&self) -> int {
        *self as int
    }

    fn less_than(&self, other: &Self) -> (r: bool) {
        *self < *other
    }

    proof fn lemma_rank_injective(a: Self, b: Self) {
    }
}

impl Sortable for u16 {
    open spec fn rank(&self) -> int {
        *self as int
    }

    fn less_than(&self, other: &Self) -> (r: bool) {
        *self < *other
    }

    proof fn lemma_rank_injective(a: Self, b: Self) {
    }
}

impl Sortable for u32 {
    open spec fn rank(&self) -> int {
        *self as int
    }

    fn less_than(&self, other: &Self) -> (r: bool) {
        *self < *other
    }

    proof fn lemma_rank_injective(a: Self, b: Self) {
    }
}

impl Sortable for u64 {
    open spec fn rank(&self) -> int {
        *self as int
    }

    fn less_than(&self, other: &Self) -> (r: bool) {
        *self < *other
    }

    proof fn lemma_rank_injective(a: Self, b: Self) {
    }
}

impl Sortable for usize {
    open spec fn rank(&self) -> int {
        *self as int
    }

    fn less_than(&self, other: &Self) -> (r: bool) {
        *self < *other
    }

    proof fn lemma_rank_injective(a: Self, b: Self) {
    }
}

impl Sortable for i8 {
    open spec fn rank(&self) -> int {
        *self as int
    }

    fn less_than(&self, other: &Self) -> (r: bool) {
        *self < *other
    }

    proof fn lemma_rank_injective(a: Self, b: Self) {
    }
}

impl Sortable for i16 {
    open spec fn rank(&self) -> int {
        *self as int
    }

    fn less_than(&self, other: &Self) -> (r: bool) {
        *self < *other
    }

    proof fn lemma_rank_injective(a: Self, b: Self) {
    }
}

impl Sortable for i32 {
    open spec fn rank(&self) -> int {
        *self as int
    }

    fn less_than(&self, other: &Self) -> (r: bool) {
        *self < *other
    }

    proof fn lemma_rank_injective(a: Self, b: Self) {
    }
}

impl Sortable for i64 {
    open spec fn rank(&self) -> int {
        *self as int
    }

    fn less_than(&self, other: &Self) -> (r: bool) {
        *self < *other
    }

    proof fn lemma_rank_injective(a: Self, b: Self) {
    }
}

/// A strict-less predicate over `T` that the sort runs on.
pub trait Less<T> {
    /// The predicate may be called on any pair and answers consistently.
    spec fn valid(&self) -> bool;

    /// Position of an element in the order.
    spec fn rank(&self, x: T) -> int;

    fn is_less(&self, a: &T, b: &T) -> (r: bool)
        requires
            self.valid(),
        ensures
            r == (self.rank(*a) < self.rank(*b)),
    ;
}

/// The natural order of a `Sortable` type.
pub struct NaturalOrder;

impl<T: Sortable> Less<T> for NaturalOrder {
    open spec fn valid(&self) -> bool {
        true
    }

    open spec fn rank(&self, x: T) -> int {
        x.rank()
    }

    fn is_less(&self, a: &T, b: &T) -> (r: bool) {
        a.less_than(b)
    }
}

/// Orders elements by a key that a function computes from each.
pub struct ByKey<F> {
    pub key: F,
}

/// `key` may be called on every element and its results on one element all
/// have the same rank.
pub open spec fn key_fn_ok<T, K: Sortable, F: Fn(&T) -> K>(key: F) -> bool {
    &&& forall|x: &T| #[trigger] key.requires((x,))
    &&& forall|x: &T, k1: K, k2: K|
        #![trigger key.ensures((x,), k1), key.ensures((x,), k2)]
        key.ensures((x,), k1) && key.ensures((x,), k2) ==> k1.rank() == k2.rank()
}

impl<T, K: Sortable, F: Fn(&T) -> K> Less<T> for ByKey<F> {
    open spec fn valid(&self) -> bool {
        key_fn_ok::<T, K, F>(self.key)
    }

    open spec fn rank(&self, x: T) -> int {
        (choose|k: K| self.key.ensures((&x,), k)).rank()
    }

    fn is_less(&self, a: &T, b: &T) -> (r: bool) {
        let ka = (self.key)(a);
        let kb = (self.key)(b);
        proof {
            let ca = choose|k: K| self.key.ensures((a,), k);
            let cb = choose|k: K| self.key.ensures((b,), k);
            assert(self.key.ensures((a,), ca));
            assert(self.key.ensures((b,), cb));
        }
        ka.less_than(&kb)
    }
}

/// Orders elements by a three-way comparison.
pub struct ByCompare<F> {
    pub compare: F,
}

/// `rank` places elements as `compare` does: `compare(a, b)` is `Less` exactly
/// when `rank(a) < rank(b)`.
pub open spec fn ranks_compare<T, F: Fn(&T, &T) -> std::cmp::Ordering>(
    compare: F,
    rank: spec_fn(T) -> int,
) -> bool {
    forall|a: &T, b: &T, o: std::cmp::Ordering| #[trigger]
        compare.ensures((a, b), o) ==> ((o == std::cmp::Ordering::Less) == (rank(*a) < rank(*b)))
}

/// `compare` may be called on every pair and is a strict weak order: some
/// ranking of the elements agrees with it.
pub open spec fn compare_fn_ok<T, F: Fn(&T, &T) -> std::cmp::Ordering>(compare: F) -> bool {
    &&& forall|a: &T, b: &T| #[trigger] compare.requires((a, b))
    &&& exists|rank: spec_fn(T) -> int| ranks_compare(compare, rank)
}

impl<T, F: Fn(&T, &T) -> std::cmp::Ordering> Less<T> for ByCompare<F> {
    open spec fn valid(&self) -> bool {
        compare_fn_ok::<T, F>(self.compare)
    }

    open spec fn rank(&self, x: T) -> int {
        (choose|rank: spec_fn(T) -> int| ranks_compare(self.compare, rank))(x)
    }

    fn is_less(&self, a: &T, b: &T) -> (r: bool) {
        let o = (self.compare)(a, b);
        match o {
            std::cmp::Ordering::Less => true,
            _ => false,
        }
    }
}

/// `s` is in ascending order of `less`.
pub open spec fn sorted_by<T, L: Less<T>>(less: &L, s: Seq<T>) -> bool {
    forall|i: int, j: int|
        0 <= i < j < s.len() ==> #[trigger] less.rank(s[i]) <= #[trigger] less.rank(s[j])
}

/// `s` is in ascending natural order.
pub open spec fn sorted<T: Sortable>(s: Seq<T>) -> bool {
    forall|i: int, j: int| 0 <= i < j < s.len() ==> #[trigger] s[i].rank() <= #[trigger] s[j].rank()
}

/// Idempotence: a sorted sequence with the multiset of another sorted
/// sequence is that sequence, so sorting the output of `sort` again gives the
/// same output.
pub proof fn lemma_sort_idempotent<T: Sortable>(once: Seq<T>, twice: Seq<T>)
    requires
        sorted(once),
        sorted(twice),
        twice.to_multiset() == once.to_multiset(),
    ensures
        twice == once,
    decreases once.len(),
{
    broadcast use vstd::seq_lib::group_to_multiset_ensures;

    once.to_multiset_ensures();
    twice.to_multiset_ensures();
    if once.len() > 0 {
        assert(twice.len() == once.len());
        let a = once[0];
        let b = twice[0];
        assert(once.contains(b)) by {
            assert(twice.contains(b));
            assert(twice.to_multiset().count(b) > 0);
        }
        assert(twice.contains(a)) by {
            assert(once.contains(a));
            assert(once.to_multiset().count(a) > 0);
        }
        let i = choose|i: int| 0 <= i < once.len() && once[i] == b;
        let j = choose|j: int| 0 <= j < twice.len() && twice[j] == a;
        if i > 0 {
            assert(once[0].rank() <= once[i].rank());
        }
        if j > 0 {
            assert(twice[0].rank() <= twice[j].rank());
        }
        T::lemma_rank_injective(a, b);
        assert(a == b);
        let o = once.drop_first();
        let t = twice.drop_first();
        vstd::seq_lib::to_multiset_remove(once, 0);
        vstd::seq_lib::to_multiset_remove(twice, 0);
        assert(once.remove(0) =~= o);
        assert(twice.remove(0) =~= t);
        assert(sorted(o)) by {
            assert forall|x: int, y: int| 0 <= x < y < o.len() implies #[trigger] o[x].rank()
                <= #[trigger] o[y].rank() by {
                assert(once[x + 1].rank() <= once[y + 1].rank());
            }
        }
        assert(sorted(t)) by {
            assert forall|x: int, y: int| 0 <= x < y < t.len() implies #[trigger] t[x].rank()
                <= #[trigger] t[y].rank() by {
                assert(twice[x + 1].rank() <= twice[y + 1].rank());
            }
        }
        lemma_sort_idempotent(o, t);
        assert(twice =~= once) by {
            assert forall|x: int| 0 <= x < once.len() implies twice[x] == once[x] by {
                if x > 0 {
                    assert(t[x - 1] == o[x - 1]);
                }
            }
        }
    } else {
        assert(twice.len() == 0);
        assert(twice =~= once);
    }
}

} // verus!
