//! Super-scalar sample sort: a comparison sort that classifies elements into
//! buckets with a branchless splitter tree, writes them back in blocks,
//! gathers each bucket's blocks and tail into its range, and recurses on the
//! buckets.
use vstd::prelude::*;

pub mod analyze;
pub mod base_case;
pub mod classifier;
pub mod constants;
pub mod local_classification;
pub mod merge;
pub mod multiset_sum;
pub mod order;
pub mod partition_friendly;
pub mod sequential;
pub mod storage;

use crate::base_case::{base_case_sort, sort_simple_cases};
use crate::constants::{BASE_CASE_MULTIPLIER, BASE_CASE_SIZE};
use crate::order::{
    compare_fn_ok, key_fn_ok, ranks_compare, sorted, sorted_by, ByCompare, ByKey, Less,
    NaturalOrder, Sortable,
};
use crate::sequential::sequential;
use crate::storage::LocalStorage;

verus! {

/// `s` is in ascending order of the three-way comparison `compare`: no later
/// element compares `Less` than an earlier one.
pub open spec fn sorted_by_compare<T, F: Fn(&T, &T) -> std::cmp::Ordering>(
    compare: F,
    s: Seq<T>,
) -> bool {
    forall|i: int, j: int, o: std::cmp::Ordering|
        0 <= i < j < s.len() && #[trigger] compare.ensures((&s[j], &s[i]), o) ==> o
            != std::cmp::Ordering::Less
}

/// `s` is in ascending order of the keys that `key` computes.
pub open spec fn sorted_by_key_fn<T, K: Sortable, F: Fn(&T) -> K>(key: F, s: Seq<T>) -> bool {
    forall|i: int, j: int, ki: K, kj: K|
        0 <= i < j < s.len() && #[trigger] key.ensures((&s[i],), ki) && #[trigger] key.ensures(
            (&s[j],),
            kj,
        ) ==> ki.rank() <= kj.rank()
}

/// Sorts `v` in ascending natural order.
pub fn sort<T: Sortable>(v: &mut [T])
    ensures
        sorted(final(v)@),
        final(v)@.to_multiset() == old(v)@.to_multiset(),
{
    let less = NaturalOrder;
    ips4o(v, &less);
    assert(sorted_by(&less, v@));
    assert forall|i: int, j: int| 0 <= i < j < v@.len() implies #[trigger] v@[i].rank()
        <= #[trigger] v@[j].rank() by {
        assert(less.rank(v@[i]) <= less.rank(v@[j]));
    }
}

/// Sorts `v` in ascending order of `compare`, which must be a strict weak
/// order.
pub fn sort_by<T: Copy, F: Fn(&T, &T) -> std::cmp::Ordering>(v: &mut [T], compare: F)
    requires
        compare_fn_ok::<T, F>(compare),
    ensures
        sorted_by_compare(compare, final(v)@),
        final(v)@.to_multiset() == old(v)@.to_multiset(),
{
    let less = ByCompare { compare };
    ips4o(v, &less);
    proof {
        let rank = choose|rank: spec_fn(T) -> int| ranks_compare(compare, rank);
        assert forall|i: int, j: int, o: std::cmp::Ordering|
            0 <= i < j < v@.len() && #[trigger] compare.ensures(
                (&v@[j], &v@[i]),
                o,
            ) implies o != std::cmp::Ordering::Less by {
            assert(less.rank(v@[i]) <= less.rank(v@[j]));
            assert(ranks_compare(compare, rank));
        }
    }
}

/// Sorts `v` in ascending order of the key that `key` computes from each
/// element.
pub fn sort_by_key<T: Copy, K: Sortable, F: Fn(&T) -> K>(v: &mut [T], key: F)
    requires
        key_fn_ok::<T, K, F>(key),
    ensures
        sorted_by_key_fn(key, final(v)@),
        final(v)@.to_multiset() == old(v)@.to_multiset(),
{
    let less = ByKey { key };
    ips4o(v, &less);
    proof {
        assert forall|i: int, j: int, ki: K, kj: K|
            0 <= i < j < v@.len() && #[trigger] key.ensures((&v@[i],), ki) && #[trigger] key.ensures(
                (&v@[j],),
                kj,
            ) implies ki.rank() <= kj.rank() by {
            assert(less.rank(v@[i]) <= less.rank(v@[j]));
            let ci = choose|k: K| key.ensures((&v@[i],), k);
            let cj = choose|k: K| key.ensures((&v@[j],), k);
            assert(key.ensures((&v@[i],), ci));
            assert(key.ensures((&v@[j],), cj));
        }
    }
}

/// Relies on rayon's `current_num_threads`: the size of the current thread
/// pool, which depends on the machine and the pool's configuration.
#[verifier::external_body]
fn current_num_threads() -> usize {
    rayon::current_num_threads()
}

/// Sorts `v` in ascending natural order, choosing the driver by the size of
/// the thread pool.
pub fn sort_par<T: Sortable>(v: &mut [T])
    ensures
        sorted(final(v)@),
        final(v)@.to_multiset() == old(v)@.to_multiset(),
{
    let less = NaturalOrder;
    ips4o_par(v, &less);
    assert forall|i: int, j: int| 0 <= i < j < v@.len() implies #[trigger] v@[i].rank()
        <= #[trigger] v@[j].rank() by {
        assert(less.rank(v@[i]) <= less.rank(v@[j]));
    }
}

/// Sorts `v` by `less`: inputs that are sorted or reversed are handled at
/// once, short ones by the base case, the rest by sample sort.
pub fn ips4o<T: Copy, L: Less<T>>(v: &mut [T], less: &L)
    requires
        less.valid(),
    ensures
        sorted_by(less, final(v)@),
        final(v)@.to_multiset() == old(v)@.to_multiset(),
{
    if sort_simple_cases(v, less) {
        return;
    }
    if v.len() <= BASE_CASE_MULTIPLIER * BASE_CASE_SIZE {
        base_case_sort(v, less);
        return;
    }
    sequential_ips4o(v, less);
}

/// The entry behind `sort_par`: with a one-thread pool it is `ips4o`;
/// otherwise it runs the sample sort directly. Sharing the buckets of a level
/// among threads is up to the caller, with `sequential::partition_level`.
fn ips4o_par<T: Copy, L: Less<T>>(v: &mut [T], less: &L)
    requires
        less.valid(),
    ensures
        sorted_by(less, final(v)@),
        final(v)@.to_multiset() == old(v)@.to_multiset(),
{
    if sort_simple_cases(v, less) {
        return;
    }
    if v.len() <= BASE_CASE_MULTIPLIER * BASE_CASE_SIZE {
        base_case_sort(v, less);
        return;
    }
    let threads = current_num_threads();
    if threads == 1 {
        ips4o(v, less);
        return;
    }
    sequential_ips4o(v, less);
}

/// Sorts `v` by sample sort with freshly allocated storage.
pub fn sequential_ips4o<T: Copy, L: Less<T>>(v: &mut [T], less: &L)
    requires
        less.valid(),
    ensures
        sorted_by(less, final(v)@),
        final(v)@.to_multiset() == old(v)@.to_multiset(),
{
    let mut ls: LocalStorage<T> = LocalStorage::new();
    sequential(v, &mut ls, less);
}

/// Whether `v` is in ascending order of `less`.
pub fn is_sorted_by<T: Copy, L: Less<T>>(v: &[T], less: &L) -> (r: bool)
    requires
        less.valid(),
    ensures
        r == sorted_by(less, v@),
{
    let n = v.len();
    let mut i: usize = 1;
    if n <= 1 {
        return true;
    }
    while i < n
        invariant
            less.valid(),
            n == v@.len(),
            1 <= i <= n,
            sorted_by(less, v@.subrange(0, i as int)),
        decreases n - i,
    {
        if less.is_less(&v[i], &v[i - 1]) {
            return false;
        }
        assert(sorted_by(less, v@.subrange(0, i + 1))) by {
            assert forall|a: int, b: int| 0 <= a < b < i + 1 implies #[trigger] less.rank(
                v@.subrange(0, i + 1)[a],
            ) <= #[trigger] less.rank(v@.subrange(0, i + 1)[b]) by {
                if b == i && a < i - 1 {
                    assert(less.rank(v@.subrange(0, i as int)[a]) <= less.rank(
                        v@.subrange(0, i as int)[i - 1],
                    ));
                }
            }
        }
        i = i + 1;
    }
    assert(v@.subrange(0, n as int) =~= v@);
    true
}

/// Three-way comparison derived from a strict-less predicate.
pub fn is_less_to_compare<T: Copy, L: Less<T>>(less: &L, a: &T, b: &T) -> (r: std::cmp::Ordering)
    requires
        less.valid(),
    ensures
        (r == std::cmp::Ordering::Less) == (less.rank(*a) < less.rank(*b)),
        (r == std::cmp::Ordering::Greater) == (less.rank(*b) < less.rank(*a)),
        (r == std::cmp::Ordering::Equal) == (less.rank(*a) == less.rank(*b)),
{
    if less.is_less(a, b) {
        std::cmp::Ordering::Less
    } else if less.is_less(b, a) {
        std::cmp::Ordering::Greater
    } else {
        std::cmp::Ordering::Equal
    }
}

} // verus!
