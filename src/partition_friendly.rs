//! Quicksort-style partitioning for chunks that are mostly in order (or
//! mostly reversed): one partition round around a median-of-three pivot,
//! after which both sides are sorted by sample sort.
use crate::analyze::lemma_concat_sorted;
use crate::base_case::swap_elems;
use crate::order::{sorted_by, Less};
use crate::sequential::{lemma_replace_middle_ms, sequential, sub_mut};
use crate::storage::LocalStorage;
use vstd::prelude::*;

verus! {

/// Index of the median, by `less`, of `v[a]`, `v[b]` and `v[c]`.
fn median_of_three<T: Copy, L: Less<T>>(v: &[T], a: usize, b: usize, c: usize, less: &L) -> (r:
    usize)
    requires
        less.valid(),
        a < v@.len(),
        b < v@.len(),
        c < v@.len(),
    ensures
        r == a || r == b || r == c,
{
    let ab = less.is_less(&v[a], &v[b]);
    let bc = less.is_less(&v[b], &v[c]);
    let ac = less.is_less(&v[a], &v[c]);
    if ab == bc {
        b
    } else if ab == ac {
        c
    } else {
        a
    }
}

/// Partitions `v` around a pivot chosen as the median of its first, middle
/// and last elements. Returns the pivot's final index `mid`: every element
/// before it ranks below it, every element after it not below.
pub fn std_partitioning<T: Copy, L: Less<T>>(v: &mut [T], less: &L) -> (mid: usize)
    requires
        less.valid(),
        old(v)@.len() > 0,
    ensures
        final(v)@.len() == old(v)@.len(),
        mid < final(v)@.len(),
        final(v)@.to_multiset() == old(v)@.to_multiset(),
        forall|a: int| 0 <= a < mid ==> less.rank(#[trigger] final(v)@[a]) < less.rank(
            final(v)@[mid as int],
        ),
        forall|b: int|
            mid < b < final(v)@.len() ==> less.rank(final(v)@[mid as int]) <= less.rank(
                #[trigger] final(v)@[b],
            ),
{
    let n = v.len();
    let p = median_of_three(v, 0, n / 2, n - 1, less);
    swap_elems(v, 0, p);
    let pivot = v[0];
    let mut i: usize = 1;
    let mut j: usize = 1;
    while j < n
        invariant
            less.valid(),
            n == v@.len(),
            1 <= i <= j <= n,
            v@[0] == pivot,
            forall|a: int| 1 <= a < i ==> less.rank(#[trigger] v@[a]) < less.rank(pivot),
            forall|b: int| i <= b < j ==> less.rank(pivot) <= less.rank(#[trigger] v@[b]),
            v@.to_multiset() == old(v)@.to_multiset(),
        decreases n - j,
    {
        if less.is_less(&v[j], &pivot) {
            swap_elems(v, i, j);
            i = i + 1;
        }
        j = j + 1;
    }
    let mid = i - 1;
    swap_elems(v, 0, mid);
    mid
}

/// Sorts `v` with one partition round and sample sort on both sides.
pub fn partition_friendly_sort<T: Copy, L: Less<T>>(
    v: &mut [T],
    ls: &mut LocalStorage<T>,
    less: &L,
)
    requires
        less.valid(),
    ensures
        final(v)@.len() == old(v)@.len(),
        sorted_by(less, final(v)@),
        final(v)@.to_multiset() == old(v)@.to_multiset(),
{
    let n = v.len();
    if n == 0 {
        return;
    }
    let mid = std_partitioning(v, less);
    let ghost s0 = v@;
    let pivot = v[mid];
    {
        let left = sub_mut(v, 0, mid);
        sequential(left, ls, less);
        assert(v@.subrange(0, mid as int) =~= left@);
    }
    let ghost s1 = v@;
    proof {
        let lf = s1.subrange(0, mid as int);
        lf.to_multiset_ensures();
        s0.subrange(0, mid as int).to_multiset_ensures();
        lemma_replace_middle_ms(s0, 0, mid as int, lf);
        assert(s0.subrange(0, 0) + lf + s0.subrange(mid as int, n as int) =~= s1);
        assert forall|a: int| 0 <= a < mid implies less.rank(#[trigger] s1[a]) < less.rank(pivot) by {
            let q = crate::sequential::lemma_ms_member(lf, s0.subrange(0, mid as int), a);
            assert(lf[a] == s1[a]);
            assert(s0[q] == s1[a]);
        }
        assert forall|q: int| mid <= q < n implies #[trigger] s1[q] == s0[q] by {
            assert(s1[q] == s0.subrange(mid as int, n as int)[q - mid]);
        }
    }
    {
        let right = sub_mut(v, mid + 1, n);
        sequential(right, ls, less);
        assert(v@.subrange(mid + 1, n as int) =~= right@);
    }
    proof {
        let s2 = v@;
        let rt = s2.subrange(mid + 1, n as int);
        rt.to_multiset_ensures();
        s1.subrange(mid + 1, n as int).to_multiset_ensures();
        lemma_replace_middle_ms(s1, mid + 1, n as int, rt);
        assert(s1.subrange(0, mid + 1) + rt + s1.subrange(n as int, n as int) =~= s2);
        assert forall|b: int| mid + 1 <= b < n implies less.rank(pivot) <= less.rank(#[trigger] s2[b]) by {
            let q = crate::sequential::lemma_ms_member(rt, s1.subrange(mid + 1, n as int), b - mid - 1);
            assert(rt[b - mid - 1] == s2[b]);
            assert(s1[mid + 1 + q] == s2[b]);
        }
        assert forall|q: int| 0 <= q <= mid implies #[trigger] s2[q] == s1[q] by {
            assert(s2[q] == s1.subrange(0, mid + 1)[q]);
        }
        let lf = s2.subrange(0, mid as int);
        assert(lf =~= s1.subrange(0, mid as int));
        let pv = seq![pivot];
        assert(sorted_by(less, pv));
        lemma_concat_sorted(less, lf, pv);
        lemma_concat_sorted(less, lf + pv, rt);
        assert(lf + pv + rt =~= s2);
    }
}

} // verus!
