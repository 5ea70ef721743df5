//! Merging of adjacent sorted runs through a scratch buffer.
use crate::order::{sorted_by, Less};
use crate::sequential::{lemma_replace_middle_ms, sub_mut};
use vstd::prelude::*;
use vstd::seq_lib::*;

verus! {

/// Pushing an element no smaller than the last keeps a sequence sorted.
proof fn lemma_push_sorted<T, L: Less<T>>(less: &L, s: Seq<T>, x: T)
    requires
        sorted_by(less, s),
        s.len() > 0 ==> less.rank(s.last()) <= less.rank(x),
    ensures
        sorted_by(less, s.push(x)),
{
    assert forall|a: int, b: int| 0 <= a < b < s.len() + 1 implies #[trigger] less.rank(
        s.push(x)[a],
    ) <= #[trigger] less.rank(s.push(x)[b]) by {
        if b == s.len() && a < s.len() - 1 {
            assert(less.rank(s[a]) <= less.rank(s[s.len() - 1]));
        }
    }
}

proof fn lemma_subrange_push_ms<T>(s: Seq<T>, a: int, b: int)
    requires
        0 <= a <= b < s.len(),
    ensures
        s.subrange(a, b + 1).to_multiset() == s.subrange(a, b).to_multiset().insert(s[b]),
{
    assert(s.subrange(a, b + 1) =~= s.subrange(a, b).push(s[b]));
    to_multiset_build(s.subrange(a, b), s[b]);
}

/// Merges the sorted runs `v[..half1]` and `v[half1..]` into one sorted run;
/// of two equal elements the one of the first run comes first.
pub fn double_merge<T: Copy, L: Less<T>>(
    v: &mut [T],
    half1: usize,
    scratch: &mut Vec<T>,
    less: &L,
)
    requires
        less.valid(),
        half1 <= old(v)@.len(),
        sorted_by(less, old(v)@.subrange(0, half1 as int)),
        sorted_by(less, old(v)@.subrange(half1 as int, old(v)@.len() as int)),
    ensures
        final(v)@.len() == old(v)@.len(),
        sorted_by(less, final(v)@),
        final(v)@.to_multiset() == old(v)@.to_multiset(),
{
    broadcast use vstd::multiset::group_multiset_axioms;
    broadcast use group_to_multiset_ensures;

    let n = v.len();
    let ghost s = v@;
    scratch.clear();
    let mut i: usize = 0;
    let mut j: usize = half1;
    proof {
        crate::multiset_sum::lemma_empty_seq_ms(s.subrange(0, 0));
        crate::multiset_sum::lemma_empty_seq_ms(s.subrange(half1 as int, half1 as int));
        crate::multiset_sum::lemma_empty_seq_ms(scratch@);
    }
    while i < half1 || j < n
        invariant
            less.valid(),
            n == s.len() == v@.len(),
            v@ == s,
            i <= half1 <= j <= n,
            sorted_by(less, s.subrange(0, half1 as int)),
            sorted_by(less, s.subrange(half1 as int, n as int)),
            scratch@.len() == i + (j - half1),
            sorted_by(less, scratch@),
            scratch@.to_multiset() == s.subrange(0, i as int).to_multiset().add(
                s.subrange(half1 as int, j as int).to_multiset(),
            ),
            scratch@.len() > 0 && i < half1 ==> less.rank(scratch@.last()) <= less.rank(
                s[i as int],
            ),
            scratch@.len() > 0 && j < n ==> less.rank(scratch@.last()) <= less.rank(s[j as int]),
        decreases half1 - i + n - j,
    {
        let ghost before = scratch@;
        if j >= n || (i < half1 && !less.is_less(&v[j], &v[i])) {
            proof {
                lemma_push_sorted(less, before, s[i as int]);
                lemma_subrange_push_ms(s, 0, i as int);
                if i + 1 < half1 {
                    assert(less.rank(s.subrange(0, half1 as int)[i as int]) <= less.rank(
                        s.subrange(0, half1 as int)[i + 1],
                    ));
                }
            }
            scratch.push(v[i]);
            proof {
                to_multiset_build(before, s[i as int]);
            }
            i = i + 1;
            assert(scratch@.to_multiset() =~= s.subrange(0, i as int).to_multiset().add(
                s.subrange(half1 as int, j as int).to_multiset(),
            ));
        } else {
            proof {
                lemma_push_sorted(less, before, s[j as int]);
                lemma_subrange_push_ms(s, half1 as int, j as int);
                if j + 1 < n {
                    assert(less.rank(s.subrange(half1 as int, n as int)[j - half1]) <= less.rank(
                        s.subrange(half1 as int, n as int)[j + 1 - half1],
                    ));
                }
            }
            scratch.push(v[j]);
            proof {
                to_multiset_build(before, s[j as int]);
            }
            j = j + 1;
            assert(scratch@.to_multiset() =~= s.subrange(0, i as int).to_multiset().add(
                s.subrange(half1 as int, j as int).to_multiset(),
            ));
        }
    }
    proof {
        crate::multiset_sum::lemma_ms_split(s, 0, half1 as int, n as int);
        assert(s.subrange(0, n as int) =~= s);
    }
    let mut k: usize = 0;
    while k < n
        invariant
            n == v@.len() == scratch@.len(),
            k <= n,
            forall|q: int| 0 <= q < k ==> #[trigger] v@[q] == scratch@[q],
        decreases n - k,
    {
        v[k] = scratch[k];
        k = k + 1;
    }
    assert(v@ =~= scratch@);
}

/// Merges the sorted run `v[lo..hi]` with cut `mid` into one sorted run in
/// place; the rest of `v` stays.
fn merge_range<T: Copy, L: Less<T>>(
    v: &mut [T],
    lo: usize,
    mid: usize,
    hi: usize,
    scratch: &mut Vec<T>,
    less: &L,
)
    requires
        less.valid(),
        lo <= mid <= hi <= old(v)@.len(),
        sorted_by(less, old(v)@.subrange(lo as int, mid as int)),
        sorted_by(less, old(v)@.subrange(mid as int, hi as int)),
    ensures
        final(v)@.len() == old(v)@.len(),
        sorted_by(less, final(v)@.subrange(lo as int, hi as int)),
        final(v)@.to_multiset() == old(v)@.to_multiset(),
        final(v)@.subrange(lo as int, hi as int).to_multiset() == old(v)@.subrange(
            lo as int,
            hi as int,
        ).to_multiset(),
        forall|q: int|
            0 <= q < old(v)@.len() && !(lo <= q < hi) ==> #[trigger] final(v)@[q] == old(v)@[q],
{
    let ghost s = v@;
    let r = sub_mut(v, lo, hi);
    proof {
        assert(r@.subrange(0, (mid - lo) as int) =~= s.subrange(lo as int, mid as int));
        assert(r@.subrange((mid - lo) as int, r@.len() as int) =~= s.subrange(mid as int, hi as int));
    }
    double_merge(r, mid - lo, scratch, less);
    let ghost rf = r@;
    proof {
        lemma_replace_middle_ms(s, lo as int, hi as int, rf);
        assert(v@.subrange(lo as int, hi as int) =~= rf);
        assert forall|q: int| 0 <= q < s.len() && !(lo <= q < hi) implies #[trigger] v@[q] == s[q] by {
            if q < lo {
                assert(v@[q] == s.subrange(0, lo as int)[q]);
            } else {
                assert(v@[q] == s.subrange(hi as int, s.len() as int)[q - hi]);
            }
        }
    }
}

/// Merges three adjacent sorted runs, of lengths `third1`, `third2` and the
/// rest, into one sorted run.
pub fn triple_merge<T: Copy, L: Less<T>>(
    v: &mut [T],
    third1: usize,
    third2: usize,
    scratch: &mut Vec<T>,
    less: &L,
)
    requires
        less.valid(),
        third1 + third2 <= old(v)@.len(),
        sorted_by(less, old(v)@.subrange(0, third1 as int)),
        sorted_by(less, old(v)@.subrange(third1 as int, third1 + third2)),
        sorted_by(less, old(v)@.subrange(third1 + third2, old(v)@.len() as int)),
    ensures
        final(v)@.len() == old(v)@.len(),
        sorted_by(less, final(v)@),
        final(v)@.to_multiset() == old(v)@.to_multiset(),
{
    let n = v.len();
    let ghost s = v@;
    merge_range(v, 0, third1, third1 + third2, scratch, less);
    proof {
        assert(v@.subrange(third1 + third2, n as int) =~= s.subrange(third1 + third2, n as int));
        assert(v@.subrange(0, third1 + third2) =~= v@.subrange(0, third1 + third2));
    }
    double_merge(v, third1 + third2, scratch, less);
}

/// Merges four adjacent sorted runs, of lengths `quad1`, `quad2`, `quad3`
/// and the rest, into one sorted run: the first two and the last two pairwise,
/// then the two results.
pub fn quad_merge<T: Copy, L: Less<T>>(
    v: &mut [T],
    quad1: usize,
    quad2: usize,
    quad3: usize,
    scratch: &mut Vec<T>,
    less: &L,
)
    requires
        less.valid(),
        quad1 + quad2 + quad3 <= old(v)@.len(),
        sorted_by(less, old(v)@.subrange(0, quad1 as int)),
        sorted_by(less, old(v)@.subrange(quad1 as int, quad1 + quad2)),
        sorted_by(less, old(v)@.subrange(quad1 + quad2, quad1 + quad2 + quad3)),
        sorted_by(less, old(v)@.subrange(quad1 + quad2 + quad3, old(v)@.len() as int)),
    ensures
        final(v)@.len() == old(v)@.len(),
        sorted_by(less, final(v)@),
        final(v)@.to_multiset() == old(v)@.to_multiset(),
{
    let n = v.len();
    let ghost s = v@;
    let h = quad1 + quad2;
    merge_range(v, 0, quad1, h, scratch, less);
    let ghost s1 = v@;
    proof {
        assert(s1.subrange(h as int, h + quad3) =~= s.subrange(h as int, h + quad3));
        assert(s1.subrange(h + quad3, n as int) =~= s.subrange(h + quad3, n as int));
    }
    merge_range(v, h, h + quad3, n, scratch, less);
    proof {
        assert(v@.subrange(0, h as int) =~= s1.subrange(0, h as int));
    }
    double_merge(v, h, scratch, less);
}

} // verus!
