//! Small-array sorting: insertion sort, and the detection of inputs that are
//! already sorted or reversed.
use crate::order::{sorted_by, Less};
use vstd::prelude::*;
use vstd::seq_lib::*;

verus! {

/// Swapping two entries keeps the multiset of a sequence.
pub proof fn lemma_swap_keeps_multiset<T>(s: Seq<T>, i: int, j: int)
    requires
        0 <= i < s.len(),
        0 <= j < s.len(),
    ensures
        s.update(i, s[j]).update(j, s[i]).to_multiset() == s.to_multiset(),
{
    broadcast use vstd::multiset::group_multiset_axioms;

    let t = s.update(i, s[j]);
    if i == j {
        assert(t.update(j, s[i]) =~= s);
    } else {
        to_multiset_update(s, i, s[j]);
        to_multiset_update(t, j, s[i]);
        assert(t[j] == s[j]);
        let m = s.to_multiset();
        assert(s.contains(s[i]));
        assert(s.contains(s[j]));
        to_multiset_contains(s, s[i]);
        to_multiset_contains(s, s[j]);
        assert(m.count(s[i]) > 0);
        assert(m.count(s[j]) > 0);
        assert(m.insert(s[j]).remove(s[i]).insert(s[i]).remove(s[j]) =~= m);
    }
}

/// Exchanges `v[i]` and `v[j]`.
pub fn swap_elems<T: Copy>(v: &mut [T], i: usize, j: usize)
    requires
        i < old(v)@.len(),
        j < old(v)@.len(),
    ensures
        final(v)@ == old(v)@.update(i as int, old(v)@[j as int]).update(j as int, old(v)@[i as int]),
        final(v)@.to_multiset() == old(v)@.to_multiset(),
{
    proof {
        lemma_swap_keeps_multiset(v@, i as int, j as int);
    }
    let a = v[i];
    let b = v[j];
    v[i] = b;
    v[j] = a;
}

/// Moves `v[i]` left past every larger element of the sorted prefix `v[..i]`.
fn shift_tail<T: Copy, L: Less<T>>(v: &mut [T], i: usize, less: &L)
    requires
        less.valid(),
        i < old(v)@.len(),
        sorted_by(less, old(v)@.subrange(0, i as int)),
    ensures
        final(v)@.len() == old(v)@.len(),
        sorted_by(less, final(v)@.subrange(0, i + 1)),
        final(v)@.subrange(i + 1, final(v)@.len() as int) == old(v)@.subrange(
            i + 1,
            old(v)@.len() as int,
        ),
        final(v)@.to_multiset() == old(v)@.to_multiset(),
{
    let ghost v0 = v@;
    let ghost x = v@[i as int];
    let mut j: usize = i;
    assert forall|a: int, b: int|
        0 <= a < b <= i && a != j && b != j implies #[trigger] less.rank(v@[a])
            <= #[trigger] less.rank(v@[b]) by {
        assert(v@[a] == v@.subrange(0, i as int)[a]);
        assert(v@[b] == v@.subrange(0, i as int)[b]);
    }
    while j > 0
        invariant
            less.valid(),
            j <= i < v@.len(),
            v@.len() == v0.len(),
            v@[j as int] == x,
            forall|a: int, b: int|
                0 <= a < b <= i && a != j && b != j ==> #[trigger] less.rank(v@[a])
                    <= #[trigger] less.rank(v@[b]),
            forall|b: int| j < b <= i ==> less.rank(x) < #[trigger] less.rank(v@[b]),
            v@.subrange(i + 1, v@.len() as int) == v0.subrange(i + 1, v0.len() as int),
            v@.to_multiset() == v0.to_multiset(),
        ensures
            j <= i < v@.len(),
            v@.len() == v0.len(),
            v@[j as int] == x,
            forall|a: int, b: int|
                0 <= a < b <= i && a != j && b != j ==> #[trigger] less.rank(v@[a])
                    <= #[trigger] less.rank(v@[b]),
            forall|b: int| j < b <= i ==> less.rank(x) < #[trigger] less.rank(v@[b]),
            v@.subrange(i + 1, v@.len() as int) == v0.subrange(i + 1, v0.len() as int),
            v@.to_multiset() == v0.to_multiset(),
            j == 0 || less.rank(v@[j - 1]) <= less.rank(x),
        decreases j,
    {
        if !less.is_less(&v[j], &v[j - 1]) {
            break;
        }
        swap_elems(v, j - 1, j);
        j = j - 1;
        assert(v@.subrange(i + 1, v@.len() as int) =~= v0.subrange(i + 1, v0.len() as int));
    }
    assert(sorted_by(less, v@.subrange(0, i + 1))) by {
        assert forall|a: int, b: int| 0 <= a < b < i + 1 implies #[trigger] less.rank(
            v@.subrange(0, i + 1)[a],
        ) <= #[trigger] less.rank(v@.subrange(0, i + 1)[b]) by {
            if a == j && j > 0 {
                assert(less.rank(v@[j - 1]) <= less.rank(x));
            }
            if b == j && a < j {
                assert(less.rank(v@[a]) <= less.rank(v@[j - 1]) || a == j - 1);
            }
        }
    }
}

/// Sorts `v` by insertion.
pub fn insertion_sort<T: Copy, L: Less<T>>(v: &mut [T], less: &L)
    requires
        less.valid(),
    ensures
        final(v)@.len() == old(v)@.len(),
        sorted_by(less, final(v)@),
        final(v)@.to_multiset() == old(v)@.to_multiset(),
{
    let n = v.len();
    if n <= 1 {
        return;
    }
    let mut i: usize = 1;
    while i < n
        invariant
            less.valid(),
            1 <= i <= n,
            v@.len() == n,
            sorted_by(less, v@.subrange(0, i as int)),
            v@.to_multiset() == old(v)@.to_multiset(),
        decreases n - i,
    {
        shift_tail(v, i, less);
        i = i + 1;
    }
    assert(v@.subrange(0, n as int) =~= v@);
}

/// Sorts `v` with the base-case sort.
pub fn base_case_sort<T: Copy, L: Less<T>>(v: &mut [T], less: &L)
    requires
        less.valid(),
    ensures
        final(v)@.len() == old(v)@.len(),
        sorted_by(less, final(v)@),
        final(v)@.to_multiset() == old(v)@.to_multiset(),
{
    insertion_sort(v, less);
}

/// `s` is in descending order of `less`.
pub open spec fn sorted_desc_by<T, L: Less<T>>(less: &L, s: Seq<T>) -> bool {
    forall|i: int, j: int|
        0 <= i < j < s.len() ==> #[trigger] less.rank(s[j]) <= #[trigger] less.rank(s[i])
}

/// Reverses `v` in place.
pub fn reverse_slice<T: Copy>(v: &mut [T])
    ensures
        final(v)@ == old(v)@.reverse(),
{
    let n = v.len();
    let mut i: usize = 0;
    while i < n / 2
        invariant
            n == v@.len() == old(v)@.len(),
            i <= n / 2,
            forall|k: int|
                0 <= k < n ==> #[trigger] v@[k] == if k < i || k >= n - i {
                    old(v)@[n - 1 - k]
                } else {
                    old(v)@[k]
                },
        decreases n / 2 - i,
    {
        swap_elems(v, i, n - 1 - i);
        i = i + 1;
    }
    assert(v@ =~= old(v)@.reverse());
}

/// Handles inputs that need no real sorting: short ones, ascending ones and
/// descending ones (which it reverses). Returns whether `v` is now sorted;
/// otherwise `v` is left as it was.
pub fn sort_simple_cases<T: Copy, L: Less<T>>(v: &mut [T], less: &L) -> (r: bool)
    requires
        less.valid(),
    ensures
        r == (sorted_by(less, old(v)@) || sorted_desc_by(less, old(v)@)),
        r ==> sorted_by(less, final(v)@),
        r ==> final(v)@.to_multiset() == old(v)@.to_multiset(),
        r && old(v)@.len() > 0 && less.rank(old(v)@[0]) < less.rank(old(v)@.last()) ==> final(v)@
            == old(v)@,
        r && old(v)@.len() <= 1 ==> final(v)@ == old(v)@,
        r && old(v)@.len() > 1 && !(less.rank(old(v)@[0]) < less.rank(old(v)@.last()))
            ==> final(v)@ == old(v)@.reverse(),
        !r ==> final(v)@ == old(v)@,
{
    let n = v.len();
    if n <= 1 {
        return true;
    }
    if less.is_less(&v[0], &v[n - 1]) {
        let mut x: usize = 1;
        while x < n
            invariant
                less.valid(),
                1 <= x <= n,
                n == v@.len(),
                less.rank(v@[0]) < less.rank(v@[n - 1]),
                sorted_by(less, v@.subrange(0, x as int)),
            decreases n - x,
        {
            if less.is_less(&v[x], &v[x - 1]) {
                assert(!sorted_desc_by(less, v@)) by {
                    assert(less.rank(v@[0]) < less.rank(v@[n - 1]));
                }
                return false;
            }
            assert(sorted_by(less, v@.subrange(0, x + 1))) by {
                assert forall|a: int, b: int| 0 <= a < b < x + 1 implies #[trigger] less.rank(
                    v@.subrange(0, x + 1)[a],
                ) <= #[trigger] less.rank(v@.subrange(0, x + 1)[b]) by {
                    if b == x && a < x - 1 {
                        assert(less.rank(v@.subrange(0, x as int)[a]) <= less.rank(
                            v@.subrange(0, x as int)[x - 1],
                        ));
                    }
                }
            }
            x = x + 1;
        }
        assert(v@.subrange(0, n as int) =~= v@);
        true
    } else {
        let mut x: usize = 1;
        while x < n
            invariant
                less.valid(),
                1 <= x <= n,
                n == v@.len(),
                v@ == old(v)@,
                less.rank(v@[n - 1]) <= less.rank(v@[0]),
                sorted_desc_by(less, v@.subrange(0, x as int)),
            decreases n - x,
        {
            if less.is_less(&v[x - 1], &v[x]) {
                assert(!sorted_by(less, v@)) by {
                    if sorted_by(less, v@) {
                        assert(less.rank(v@[0]) <= less.rank(v@[x - 1]));
                        assert(less.rank(v@[x as int]) <= less.rank(v@[n - 1]));
                    }
                }
                return false;
            }
            assert(sorted_desc_by(less, v@.subrange(0, x + 1))) by {
                assert forall|a: int, b: int| 0 <= a < b < x + 1 implies #[trigger] less.rank(
                    v@.subrange(0, x + 1)[b],
                ) <= #[trigger] less.rank(v@.subrange(0, x + 1)[a]) by {
                    if b == x && a < x - 1 {
                        assert(less.rank(v@.subrange(0, x as int)[x - 1]) <= less.rank(
                            v@.subrange(0, x as int)[a],
                        ));
                    }
                }
            }
            x = x + 1;
        }
        assert(v@.subrange(0, n as int) =~= v@);
        proof {
            v@.lemma_reverse_to_multiset();
        }
        reverse_slice(v);
        assert(sorted_by(less, v@)) by {
            assert forall|a: int, b: int| 0 <= a < b < v@.len() implies #[trigger] less.rank(
                v@[a],
            ) <= #[trigger] less.rank(v@[b]) by {
                assert(v@[a] == old(v)@[n - 1 - a]);
                assert(v@[b] == old(v)@[n - 1 - b]);
            }
        }
        true
    }
}

} // verus!
