//! The analysis front end: a linear pre-scan that measures how ordered each
//! of a fixed number of chunks is, sorts every chunk with the sorter that
//! suits it, and merges the sorted chunks.
use crate::base_case::{sort_simple_cases, sorted_desc_by};
use crate::merge::{double_merge, quad_merge, triple_merge};
use crate::order::{sorted_by, Less};
use crate::partition_friendly::partition_friendly_sort;
use crate::sequential::{lemma_replace_middle_ms, sequential, sub_mut};
use crate::storage::LocalStorage;
use vstd::prelude::*;

verus! {

/// Number of chunks the input is cut into.
pub const CHUNKS: usize = 8;

/// Length of the windows whose monotony is counted.
pub const STREAK_LEN: usize = 32;

/// How a chunk is sorted.
#[derive(PartialEq, Eq, Structural, Clone, Copy, Debug)]
pub enum ChunkKind {
    Sorted,
    Reversed,
    MergeFriendly,
    PartitionFriendly,
    Unsorted,
}

/// Relies on glidesort's `sort_with_vec_by`: sorts `v` by the comparison,
/// keeping its elements, with scratch space taken from `scratch`.
#[verifier::external_body]
fn glidesort_by<T: Copy, L: Less<T>>(v: &mut [T], scratch: &mut Vec<T>, less: &L)
    requires
        less.valid(),
    ensures
        final(v)@.len() == old(v)@.len(),
        sorted_by(less, final(v)@),
        final(v)@.to_multiset() == old(v)@.to_multiset(),
{
    glidesort::sort_with_vec_by(v, scratch, |a: &T, b: &T| crate::is_less_to_compare(less, a, b))
}

/// Number of inversions (`s[j + 1] < s[j]`) among the first `m` pairs of `s`.
pub open spec fn inv_count<T, L: Less<T>>(less: &L, s: Seq<T>, m: int) -> int
    decreases m,
{
    if m <= 0 {
        0
    } else {
        inv_count(less, s, m - 1) + if less.rank(s[m]) < less.rank(s[m - 1]) {
            1int
        } else {
            0
        }
    }
}

/// Number of the first `w` windows of `STREAK_LEN` pairs of `s` that are
/// wholly in order or wholly inverted.
pub open spec fn streak_count<T, L: Less<T>>(less: &L, s: Seq<T>, w: int) -> int
    decreases w,
{
    if w <= 0 {
        0
    } else {
        let k = STREAK_LEN as int;
        let inv = inv_count(less, s, w * k) - inv_count(less, s, (w - 1) * k);
        streak_count(less, s, w - 1) + if inv == 0 || inv == k {
            1int
        } else {
            0
        }
    }
}

/// Counts the inversions (`v[i + 1] < v[i]`) of `v[lo..hi]` and the windows
/// of `STREAK_LEN` consecutive pairs, from the start, that are wholly in order
/// or wholly inverted.
pub fn chunk_stats<T: Copy, L: Less<T>>(v: &[T], lo: usize, hi: usize, less: &L) -> (r: (
    usize,
    usize,
))
    requires
        less.valid(),
        lo < hi <= v@.len(),
    ensures
        r.0 == inv_count(less, v@.subrange(lo as int, hi as int), hi - lo - 1),
        r.1 == streak_count(less, v@.subrange(lo as int, hi as int), (hi - lo - 1) / STREAK_LEN as int),
        r.0 <= hi - lo - 1,
        r.0 == 0 <==> sorted_by(less, v@.subrange(lo as int, hi as int)),
        r.0 == hi - lo - 1 ==> sorted_desc_by(less, v@.subrange(lo as int, hi as int)),
{
    let ghost s = v@.subrange(lo as int, hi as int);
    let mut balance: usize = 0;
    let mut streaks: usize = 0;
    let mut window: usize = 0;
    let mut window_sum: usize = 0;
    let mut i: usize = lo;
    while i + 1 < hi
        invariant
            less.valid(),
            lo <= i < hi <= v@.len(),
            s == v@.subrange(lo as int, hi as int),
            balance <= i - lo,
            streaks <= i - lo,
            window_sum <= window < STREAK_LEN,
            balance == inv_count(less, s, i - lo),
            window == (i - lo) % STREAK_LEN as int,
            streaks == streak_count(less, s, (i - lo) / STREAK_LEN as int),
            window_sum == inv_count(less, s, i - lo) - inv_count(
                less,
                s,
                ((i - lo) / STREAK_LEN as int) * STREAK_LEN,
            ),
            balance > 0 ==> exists|j: int| 0 <= j < i - lo && less.rank(#[trigger] s[j + 1]) < less.rank(s[j]),
            balance == 0 ==> sorted_by(less, v@.subrange(lo as int, i + 1)),
            balance == i - lo ==> sorted_desc_by(less, v@.subrange(lo as int, i + 1)),
        decreases hi - i,
    {
        let inv = less.is_less(&v[i + 1], &v[i]);
        let ghost s0 = v@.subrange(lo as int, i + 1);
        let ghost s1 = v@.subrange(lo as int, i + 2);
        let ghost k = i - lo;
        proof {
            assert(s[k] == v@[i as int] && s[k + 1] == v@[i + 1]);
            if balance == 0 && !inv {
                assert forall|a: int, b: int| 0 <= a < b < s1.len() implies #[trigger] less.rank(
                    s1[a],
                ) <= #[trigger] less.rank(s1[b]) by {
                    if b == s1.len() - 1 && a < b - 1 {
                        assert(less.rank(s0[a]) <= less.rank(s0[b - 1]));
                    }
                }
            }
            if balance == i - lo && inv {
                assert forall|a: int, b: int| 0 <= a < b < s1.len() implies #[trigger] less.rank(
                    s1[b],
                ) <= #[trigger] less.rank(s1[a]) by {
                    if b == s1.len() - 1 && a < b - 1 {
                        assert(less.rank(s0[b - 1]) <= less.rank(s0[a]));
                    }
                }
            }
            assert(inv_count(less, s, k + 1) == inv_count(less, s, k) + if inv {
                1int
            } else {
                0
            });
        }
        if inv {
            balance = balance + 1;
            window_sum = window_sum + 1;
        }
        window = window + 1;
        if window == STREAK_LEN {
            proof {
                let w = (k + 1) / STREAK_LEN as int;
                assert(w == k / STREAK_LEN as int + 1);
                assert(w * STREAK_LEN == k + 1);
                assert(streak_count(less, s, w) == streak_count(less, s, w - 1) + if window_sum
                    == 0 || window_sum == STREAK_LEN {
                    1int
                } else {
                    0
                });
            }
            if window_sum == 0 || window_sum == STREAK_LEN {
                streaks = streaks + 1;
            }
            window = 0;
            window_sum = 0;
        }
        i = i + 1;
    }
    proof {
        assert(v@.subrange(lo as int, i + 1) =~= s);
        if sorted_by(less, s) && balance > 0 {
            let j = choose|j: int| 0 <= j < i - lo && less.rank(#[trigger] s[j + 1]) < less.rank(s[j]);
            assert(less.rank(s[j]) <= less.rank(s[j + 1]));
        }
    }
    (balance, streaks)
}

/// The kind of a chunk from its statistics: sorted without inversions,
/// reversed when every pair is inverted, merge friendly with enough monotone
/// windows, partition friendly when two thirds of the pairs agree, otherwise
/// unsorted.
pub fn chunk_kind(
    balance: usize,
    streaks: usize,
    pairs: usize,
    merge_friendly_threshold: usize,
    partition_threshold: usize,
) -> (r: ChunkKind)
    requires
        balance <= pairs < usize::MAX,
    ensures
        (r == ChunkKind::Sorted) == (balance == 0),
        (r == ChunkKind::Reversed) == (balance != 0 && balance == pairs),
        (r == ChunkKind::MergeFriendly) == (balance != 0 && balance != pairs && streaks
            > merge_friendly_threshold),
        (r == ChunkKind::PartitionFriendly) == (balance != 0 && balance != pairs && streaks
            <= merge_friendly_threshold && (balance < partition_threshold || balance + partition_threshold
            >= pairs + 1)),
{
    if balance == 0 {
        ChunkKind::Sorted
    } else if balance == pairs {
        ChunkKind::Reversed
    } else if streaks > merge_friendly_threshold {
        ChunkKind::MergeFriendly
    } else if balance < partition_threshold || partition_threshold > pairs || balance >= pairs + 1
        - partition_threshold {
        ChunkKind::PartitionFriendly
    } else {
        ChunkKind::Unsorted
    }
}

/// Concatenating two sorted sequences whose junction is in order gives a
/// sorted sequence.
pub proof fn lemma_concat_sorted<T, L: Less<T>>(less: &L, a: Seq<T>, b: Seq<T>)
    requires
        sorted_by(less, a),
        sorted_by(less, b),
        a.len() > 0 && b.len() > 0 ==> less.rank(a.last()) <= less.rank(b[0]),
    ensures
        sorted_by(less, a + b),
{
    assert forall|i: int, j: int| 0 <= i < j < (a + b).len() implies #[trigger] less.rank(
        (a + b)[i],
    ) <= #[trigger] less.rank((a + b)[j]) by {
        if i < a.len() && j >= a.len() {
            assert(less.rank(a[i]) <= less.rank(a[a.len() - 1]) || i == a.len() - 1);
            assert(less.rank(b[0]) <= less.rank(b[j - a.len()]) || j == a.len());
        }
    }
}

/// Sorts `v[lo..hi]` with the sorter for its kind; the rest of `v` stays.
fn sort_chunk<T: Copy, L: Less<T>>(
    v: &mut [T],
    lo: usize,
    hi: usize,
    kind: ChunkKind,
    ls: &mut LocalStorage<T>,
    less: &L,
)
    requires
        less.valid(),
        lo <= hi <= old(v)@.len(),
        kind == ChunkKind::Sorted ==> sorted_by(less, old(v)@.subrange(lo as int, hi as int)),
    ensures
        final(v)@.len() == old(v)@.len(),
        sorted_by(less, final(v)@.subrange(lo as int, hi as int)),
        final(v)@.to_multiset() == old(v)@.to_multiset(),
        forall|q: int|
            0 <= q < old(v)@.len() && !(lo <= q < hi) ==> #[trigger] final(v)@[q] == old(v)@[q],
{
    let ghost s = v@;
    let r = sub_mut(v, lo, hi);
    match kind {
        ChunkKind::Sorted => {},
        ChunkKind::Reversed => {
            if !sort_simple_cases(r, less) {
                sequential(r, ls, less);
            }
        },
        ChunkKind::MergeFriendly => {
            glidesort_by(r, &mut ls.scratch, less);
        },
        ChunkKind::PartitionFriendly => {
            partition_friendly_sort(r, ls, less);
        },
        _ => {
            sequential(r, ls, less);
        },
    }
    let ghost rf = r@;
    proof {
        rf.to_multiset_ensures();
        s.subrange(lo as int, hi as int).to_multiset_ensures();
        lemma_replace_middle_ms(s, lo as int, hi as int, rf);
        assert(v@.subrange(lo as int, hi as int) =~= rf);
        assert forall|q: int| 0 <= q < s.len() && !(lo <= q < hi) implies #[trigger] v@[q] == s[q] by {
            if q < lo {
                assert(v@[q] == s.subrange(0, lo as int)[q]);
            } else {
                assert(v@[q] == s.subrange(hi as int, s.len() as int)[q - hi]);
            }
        }
    }
}

/// First index of run `j` when runs end at `ends`.
pub open spec fn run_start(ends: Seq<usize>, j: int) -> int {
    if j == 0 {
        0
    } else {
        ends[j - 1] as int
    }
}

/// `ends` cuts `s` into ascending runs.
pub open spec fn runs_sorted<T, L: Less<T>>(less: &L, s: Seq<T>, ends: Seq<usize>, from: int) -> bool {
    &&& ends.len() >= 1
    &&& ends[ends.len() - 1] == s.len()
    &&& forall|j: int| 0 < j < ends.len() ==> #[trigger] ends[j - 1] <= ends[j]
    &&& forall|j: int|
        from <= j < ends.len() ==> sorted_by(
            less,
            #[trigger] s.subrange(run_start(ends, j), ends[j] as int),
        )
}

/// The run breaks at the start of chunk `f`: its first element ranks below
/// the last element of the chunk before.
pub open spec fn breaks_at<T, L: Less<T>>(less: &L, v: Seq<T>, bounds: Seq<usize>, f: int) -> bool {
    less.rank(v[bounds[f] as int]) < less.rank(v[bounds[f] - 1])
}

/// Groups the sorted chunks into runs: a chunk whose first element is not
/// below the last element of the chunk before continues that chunk's run.
/// Returns where each run ends.
pub fn find_runs<T: Copy, L: Less<T>>(v: &[T], bounds: &Vec<usize>, less: &L) -> (ends: Vec<usize>)
    requires
        less.valid(),
        bounds@.len() == CHUNKS + 1,
        bounds@[0] == 0,
        bounds@[CHUNKS as int] == v@.len(),
        forall|f: int| 0 <= f < CHUNKS ==> #[trigger] bounds@[f] < bounds@[f + 1],
        forall|f: int|
            0 <= f < CHUNKS ==> sorted_by(
                less,
                #[trigger] v@.subrange(bounds@[f] as int, bounds@[f + 1] as int),
            ),
    ensures
        runs_sorted(less, v@, ends@, 0),
        forall|j: int|
            #![trigger ends@[j]]
            0 <= j < ends@.len() - 1 ==> exists|f: int|
                1 <= f < CHUNKS && #[trigger] bounds@[f] == ends@[j] && breaks_at(less, v@, bounds@, f),
{
    let mut ends: Vec<usize> = Vec::new();
    let mut start: usize = 0;
    let mut f: usize = 1;
    while f < CHUNKS
        invariant
            less.valid(),
            bounds@.len() == CHUNKS + 1,
            bounds@[0] == 0,
            bounds@[CHUNKS as int] == v@.len(),
            forall|g: int| 0 <= g < CHUNKS ==> #[trigger] bounds@[g] < bounds@[g + 1],
            forall|g: int|
                0 <= g < CHUNKS ==> sorted_by(
                    less,
                    #[trigger] v@.subrange(bounds@[g] as int, bounds@[g + 1] as int),
                ),
            1 <= f <= CHUNKS,
            start < bounds@[f as int],
            ends@.len() == 0 ==> start == 0,
            ends@.len() > 0 ==> start == ends@[ends@.len() - 1],
            forall|j: int| 0 < j < ends@.len() ==> #[trigger] ends@[j - 1] <= ends@[j],
            sorted_by(less, v@.subrange(start as int, bounds@[f as int] as int)),
            forall|j: int|
                0 <= j < ends@.len() ==> sorted_by(
                    less,
                    #[trigger] v@.subrange(run_start(ends@, j), ends@[j] as int),
                ),
            forall|j: int|
                #![trigger ends@[j]]
                0 <= j < ends@.len() ==> exists|g: int|
                    1 <= g < f && #[trigger] bounds@[g] == ends@[j] && breaks_at(less, v@, bounds@, g),
        decreases CHUNKS - f,
    {
        let b = bounds[f];
        let fits = !less.is_less(&v[b], &v[b - 1]);
        if fits {
            proof {
                let a = v@.subrange(start as int, b as int);
                let c = v@.subrange(b as int, bounds@[f + 1] as int);
                lemma_concat_sorted(less, a, c);
                assert(a + c =~= v@.subrange(start as int, bounds@[f + 1] as int));
            }
        } else {
            let ghost old_ends = ends@;
            ends.push(b);
            proof {
                assert forall|j: int| 0 <= j < ends@.len() implies sorted_by(
                    less,
                    #[trigger] v@.subrange(run_start(ends@, j), ends@[j] as int),
                ) by {
                    if j < old_ends.len() {
                        assert(run_start(ends@, j) == run_start(old_ends, j));
                        assert(ends@[j] == old_ends[j]);
                    } else {
                        assert(run_start(ends@, j) == start);
                    }
                }
                assert(breaks_at(less, v@, bounds@, f as int));
                assert forall|j: int| #![trigger ends@[j]] 0 <= j < ends@.len() implies exists|g: int|
                    1 <= g < f + 1 && #[trigger] bounds@[g] == ends@[j] && breaks_at(less, v@, bounds@, g) by {
                    if j == ends@.len() - 1 {
                        assert(bounds@[f as int] == ends@[j]);
                    } else {
                        assert(ends@[j] == old_ends[j]);
                    }
                }
            }
            start = b;
        }
        f = f + 1;
    }
    let n = v.len();
    let ghost old_ends = ends@;
    ends.push(n);
    proof {
        assert forall|j: int| #![trigger ends@[j]] 0 <= j < ends@.len() - 1 implies exists|f: int|
            1 <= f < CHUNKS && #[trigger] bounds@[f] == ends@[j] && breaks_at(less, v@, bounds@, f) by {
            assert(ends@[j] == old_ends[j]);
        }
        assert forall|j: int| 0 <= j < ends@.len() implies sorted_by(
            less,
            #[trigger] v@.subrange(run_start(ends@, j), ends@[j] as int),
        ) by {
            if j < old_ends.len() {
                assert(run_start(ends@, j) == run_start(old_ends, j));
                assert(ends@[j] == old_ends[j]);
            } else {
                assert(run_start(ends@, j) == start);
            }
        }
    }
    ends
}

/// Merges the runs of `v` that end at `ends` into one ascending run: four
/// at a time while four are left, then three, then two.
pub fn merge_runs<T: Copy, L: Less<T>>(
    v: &mut [T],
    ends: &Vec<usize>,
    scratch: &mut Vec<T>,
    less: &L,
)
    requires
        less.valid(),
        runs_sorted(less, old(v)@, ends@, 0),
    ensures
        final(v)@.len() == old(v)@.len(),
        sorted_by(less, final(v)@),
        final(v)@.to_multiset() == old(v)@.to_multiset(),
{
    let n = v.len();
    let m = ends.len();
    let mut k: usize = 0;
    proof {
        assert(run_start(ends@, 0) == 0);
        assert(sorted_by(less, v@.subrange(run_start(ends@, 0), ends@[0] as int)));
    }
    while m - 1 - k >= 3
        invariant
            less.valid(),
            n == v@.len(),
            m == ends@.len(),
            k < m,
            runs_sorted(less, v@, ends@, k + 1),
            sorted_by(less, v@.subrange(0, ends@[k as int] as int)),
            v@.to_multiset() == old(v)@.to_multiset(),
        decreases m - k,
    {
        let e = ends[k + 3];
        proof {
            lemma_ends_mono(ends@, k as int, k + 1);
            lemma_ends_mono(ends@, k + 1, k + 2);
            lemma_ends_mono(ends@, k + 2, k + 3);
            lemma_ends_mono(ends@, k + 3, m - 1);
            assert(run_start(ends@, k + 1) == ends@[k as int]);
            assert(run_start(ends@, k + 2) == ends@[k + 1]);
            assert(run_start(ends@, k + 3) == ends@[k + 2]);
        }
        let q1 = ends[k];
        let q2 = ends[k + 1] - ends[k];
        let q3 = ends[k + 2] - ends[k + 1];
        let ghost s = v@;
        let r = sub_mut(v, 0, e);
        proof {
            assert(r@.subrange(0, q1 as int) =~= s.subrange(0, q1 as int));
            assert(r@.subrange(q1 as int, q1 + q2) =~= s.subrange(run_start(ends@, k + 1), ends@[k + 1] as int));
            assert(r@.subrange(q1 + q2, q1 + q2 + q3) =~= s.subrange(run_start(ends@, k + 2), ends@[k + 2] as int));
            assert(r@.subrange(q1 + q2 + q3, e as int) =~= s.subrange(run_start(ends@, k + 3), ends@[k + 3] as int));
        }
        quad_merge(r, q1, q2, q3, scratch, less);
        proof {
            lemma_prefix_merged(less, s, v@, r@, ends@, (k + 3) as int);
        }
        k = k + 3;
    }
    if m - 1 - k == 2 {
        let e = ends[k + 2];
        proof {
            lemma_ends_mono(ends@, k as int, k + 1);
            lemma_ends_mono(ends@, k + 1, k + 2);
            lemma_ends_mono(ends@, k + 2, m - 1);
            assert(run_start(ends@, k + 1) == ends@[k as int]);
            assert(run_start(ends@, k + 2) == ends@[k + 1]);
        }
        let t1 = ends[k];
        let t2 = ends[k + 1] - ends[k];
        let ghost s = v@;
        let r = sub_mut(v, 0, e);
        proof {
            assert(r@.subrange(0, t1 as int) =~= s.subrange(0, t1 as int));
            assert(r@.subrange(t1 as int, t1 + t2) =~= s.subrange(run_start(ends@, k + 1), ends@[k + 1] as int));
            assert(r@.subrange(t1 + t2, e as int) =~= s.subrange(run_start(ends@, k + 2), ends@[k + 2] as int));
        }
        triple_merge(r, t1, t2, scratch, less);
        proof {
            lemma_prefix_merged(less, s, v@, r@, ends@, (k + 2) as int);
        }
        k = k + 2;
    }
    if m - 1 - k == 1 {
        let e = ends[k + 1];
        proof {
            lemma_ends_mono(ends@, k as int, k + 1);
            lemma_ends_mono(ends@, k + 1, m - 1);
            assert(run_start(ends@, k + 1) == ends@[k as int]);
        }
        let h = ends[k];
        let ghost s = v@;
        let r = sub_mut(v, 0, e);
        proof {
            assert(r@.subrange(0, h as int) =~= s.subrange(0, h as int));
            assert(r@.subrange(h as int, e as int) =~= s.subrange(run_start(ends@, k + 1), ends@[k + 1] as int));
        }
        double_merge(r, h, scratch, less);
        proof {
            lemma_prefix_merged(less, s, v@, r@, ends@, (k + 1) as int);
        }
        k = k + 1;
    }
    assert(v@.subrange(0, ends@[k as int] as int) =~= v@);
}

proof fn lemma_ends_mono(ends: Seq<usize>, i: int, j: int)
    requires
        0 <= i <= j < ends.len(),
        forall|x: int| 0 < x < ends.len() ==> #[trigger] ends[x - 1] <= ends[x],
    ensures
        ends[i] <= ends[j],
    decreases j - i,
{
    if i < j {
        lemma_ends_mono(ends, i, j - 1);
    }
}

/// After the prefix of `s` up to the end of run `k` was replaced by a sorted
/// permutation of it, the runs after `k` stand as they were.
proof fn lemma_prefix_merged<T, L: Less<T>>(
    less: &L,
    s: Seq<T>,
    after: Seq<T>,
    r: Seq<T>,
    ends: Seq<usize>,
    k: int,
)
    requires
        0 <= k < ends.len(),
        runs_sorted(less, s, ends, k + 1),
        ends[k] <= s.len(),
        sorted_by(less, r),
        r.to_multiset() == s.subrange(0, ends[k] as int).to_multiset(),
        after == r + s.subrange(ends[k] as int, s.len() as int),
    ensures
        after.len() == s.len(),
        runs_sorted(less, after, ends, k + 1),
        sorted_by(less, after.subrange(0, ends[k] as int)),
        after.to_multiset() == s.to_multiset(),
{
    let e = ends[k] as int;
    r.to_multiset_ensures();
    s.subrange(0, e).to_multiset_ensures();
    assert(r.len() == e);
    lemma_replace_middle_ms(s, 0, e, r);
    assert(s.subrange(0, 0) + r =~= r);
    assert(after.subrange(0, e) =~= r);
    assert forall|j: int| k + 1 <= j < ends.len() implies sorted_by(
        less,
        #[trigger] after.subrange(run_start(ends, j), ends[j] as int),
    ) by {
        lemma_ends_mono(ends, k, j - 1);
        lemma_ends_mono(ends, j - 1, j);
        lemma_ends_mono(ends, j, ends.len() - 1);
        assert(run_start(ends, j) == ends[j - 1]);
        assert forall|i: int| e <= i < s.len() implies after[i] == s[i] by {
            assert(after[i] == s.subrange(e, s.len() as int)[i - e]);
        }
        assert(after.subrange(run_start(ends, j), ends[j] as int) =~= s.subrange(
            run_start(ends, j),
            ends[j] as int,
        ));
    }
}

/// Sorts `v`: measures the order of each chunk, sorts every run of
/// neighbouring chunks of one kind with the sorter that suits it (none for a sorted chunk, a reversal for a reversed
/// one, a merging sort for a nearly sorted one, one partition round for a
/// mostly ordered one, sample sort otherwise), and
/// merges the sorted chunks.
pub fn analyze<T: Copy, L: Less<T>>(v: &mut [T], ls: &mut LocalStorage<T>, less: &L)
    requires
        less.valid(),
    ensures
        final(v)@.len() == old(v)@.len(),
        sorted_by(less, final(v)@),
        final(v)@.to_multiset() == old(v)@.to_multiset(),
        sorted_by(less, old(v)@) ==> final(v)@ == old(v)@,
{
    let n = v.len();
    if n < 2 * CHUNKS {
        if crate::is_sorted_by(v, less) {
            return;
        }
        sequential(v, ls, less);
        return;
    }
    let chunk_len = n / CHUNKS;
    let mut bounds: Vec<usize> = Vec::new();
    let mut f: usize = 0;
    while f < CHUNKS
        invariant
            n >= 2 * CHUNKS,
            chunk_len == n / CHUNKS,
            f <= CHUNKS,
            bounds@.len() == f,
            forall|g: int| 0 <= g < f ==> #[trigger] bounds@[g] == g * chunk_len,
        decreases CHUNKS - f,
    {
        assert(f * chunk_len <= n) by (nonlinear_arith)
            requires
                f < CHUNKS,
                chunk_len == n / CHUNKS,
        ;
        bounds.push(f * chunk_len);
        f = f + 1;
    }
    bounds.push(n);
    assert(chunk_len >= 2);
    assert forall|g: int| 0 <= g < CHUNKS implies #[trigger] bounds@[g] < bounds@[g + 1] by {
        assert(g * chunk_len + chunk_len <= n) by (nonlinear_arith)
            requires
                0 <= g < CHUNKS,
                chunk_len == n / CHUNKS,
        ;
        assert((g + 1) * chunk_len == g * chunk_len + chunk_len) by (nonlinear_arith);
    }
    let merge_friendly_threshold = ((n / 4) * 3 + (n % 4) * 3 / 4) / (CHUNKS * STREAK_LEN);
    let partition_threshold = n / CHUNKS / 3;
    let mut kinds: Vec<ChunkKind> = Vec::new();
    let mut f: usize = 0;
    while f < CHUNKS
        invariant
            less.valid(),
            n == v@.len(),
            bounds@.len() == CHUNKS + 1,
            forall|g: int| 0 <= g < CHUNKS ==> #[trigger] bounds@[g] < bounds@[g + 1],
            bounds@[CHUNKS as int] == n,
            f <= CHUNKS,
            kinds@.len() == f,
            v@ == old(v)@,
            sorted_by(less, v@) ==> forall|g: int| 0 <= g < f ==> #[trigger] kinds@[g] == ChunkKind::Sorted,
            forall|g: int|
                0 <= g < f && kinds@[g] == ChunkKind::Sorted ==> sorted_by(
                    less,
                    #[trigger] v@.subrange(bounds@[g] as int, bounds@[g + 1] as int),
                ),
        decreases CHUNKS - f,
    {
        proof {
            lemma_ends_mono(bounds@, f + 1, CHUNKS as int);
        }
        let lo = bounds[f];
        let hi = bounds[f + 1];
        let (balance, streaks) = chunk_stats(v, lo, hi, less);
        proof {
            if sorted_by(less, v@) {
                let sub = v@.subrange(lo as int, hi as int);
                assert forall|a: int, b: int| 0 <= a < b < sub.len() implies #[trigger] less.rank(
                    sub[a],
                ) <= #[trigger] less.rank(sub[b]) by {
                    assert(less.rank(v@[lo + a]) <= less.rank(v@[lo + b]));
                }
            }
        }
        let kind = chunk_kind(
            balance,
            streaks,
            hi - lo - 1,
            merge_friendly_threshold,
            partition_threshold,
        );
        kinds.push(kind);
        f = f + 1;
    }
    let mut all_sorted = kinds[0] == ChunkKind::Sorted;
    proof {
        if all_sorted {
            assert(sorted_by(less, v@.subrange(bounds@[0] as int, bounds@[1] as int)));
        }
    }
    let mut f: usize = 1;
    while f < CHUNKS && all_sorted
        invariant
            less.valid(),
            n == v@.len(),
            v@ == old(v)@,
            bounds@.len() == CHUNKS + 1,
            bounds@[0] == 0,
            forall|g: int| 0 <= g < CHUNKS ==> #[trigger] bounds@[g] < bounds@[g + 1],
            bounds@[CHUNKS as int] == n,
            1 <= f <= CHUNKS,
            kinds@.len() == CHUNKS,
            sorted_by(less, v@) ==> forall|g: int| 0 <= g < CHUNKS ==> #[trigger] kinds@[g] == ChunkKind::Sorted,
            forall|g: int|
                0 <= g < CHUNKS && kinds@[g] == ChunkKind::Sorted ==> sorted_by(
                    less,
                    #[trigger] v@.subrange(bounds@[g] as int, bounds@[g + 1] as int),
                ),
            sorted_by(less, v@) ==> all_sorted,
            all_sorted ==> sorted_by(less, v@.subrange(0, bounds@[f as int] as int)),
        decreases CHUNKS - f,
    {
        proof {
            lemma_ends_mono(bounds@, f + 1, CHUNKS as int);
        }
        let b = bounds[f];
        if kinds[f] == ChunkKind::Sorted && !less.is_less(&v[b], &v[b - 1]) {
            proof {
                let a = v@.subrange(0, b as int);
                let c = v@.subrange(b as int, bounds@[f + 1] as int);
                lemma_concat_sorted(less, a, c);
                assert(a + c =~= v@.subrange(0, bounds@[f + 1] as int));
            }
        } else {
            proof {
                if sorted_by(less, v@) {
                    assert(less.rank(v@[b - 1]) <= less.rank(v@[b as int]));
                }
            }
            all_sorted = false;
        }
        f = f + 1;
    }
    if all_sorted {
        assert(v@.subrange(0, n as int) =~= v@);
        return;
    }
    let mut f: usize = 0;
    while f < CHUNKS
        invariant
            less.valid(),
            n == v@.len(),
            bounds@.len() == CHUNKS + 1,
            bounds@[0] == 0,
            forall|g: int| 0 <= g < CHUNKS ==> #[trigger] bounds@[g] < bounds@[g + 1],
            bounds@[CHUNKS as int] == n,
            f <= CHUNKS,
            kinds@.len() == CHUNKS,
            forall|g: int|
                f <= g < CHUNKS && kinds@[g] == ChunkKind::Sorted ==> sorted_by(
                    less,
                    #[trigger] v@.subrange(bounds@[g] as int, bounds@[g + 1] as int),
                ),
            forall|g: int|
                0 <= g < f ==> sorted_by(
                    less,
                    #[trigger] v@.subrange(bounds@[g] as int, bounds@[g + 1] as int),
                ),
            v@.to_multiset() == old(v)@.to_multiset(),
        decreases CHUNKS - f,
    {
        let kind = kinds[f];
        let mut g: usize = f + 1;
        if kind != ChunkKind::Sorted {
            while g < CHUNKS && kinds[g] == kind
                invariant
                    f < g <= CHUNKS,
                    kinds@.len() == CHUNKS,
                decreases CHUNKS - g,
            {
                g = g + 1;
            }
        }
        proof {
            lemma_ends_mono(bounds@, f as int, g as int);
            lemma_ends_mono(bounds@, g as int, CHUNKS as int);
        }
        let lo = bounds[f];
        let hi = bounds[g];
        let ghost s = v@;
        sort_chunk(v, lo, hi, kind, ls, less);
        proof {
            assert forall|h: int| 0 <= h < CHUNKS && !(f <= h < g) implies #[trigger] v@.subrange(
                bounds@[h] as int,
                bounds@[h + 1] as int,
            ) == s.subrange(bounds@[h] as int, bounds@[h + 1] as int) by {
                if h < f {
                    lemma_ends_mono(bounds@, h + 1, f as int);
                } else {
                    lemma_ends_mono(bounds@, g as int, h);
                }
                lemma_ends_mono(bounds@, h + 1, CHUNKS as int);
                assert(v@.subrange(bounds@[h] as int, bounds@[h + 1] as int) =~= s.subrange(
                    bounds@[h] as int,
                    bounds@[h + 1] as int,
                ));
            }
            assert forall|h: int| f <= h < g implies sorted_by(
                less,
                #[trigger] v@.subrange(bounds@[h] as int, bounds@[h + 1] as int),
            ) by {
                lemma_ends_mono(bounds@, f as int, h);
                lemma_ends_mono(bounds@, h + 1, g as int);
                let whole = v@.subrange(lo as int, hi as int);
                let part = v@.subrange(bounds@[h] as int, bounds@[h + 1] as int);
                assert forall|a: int, b: int| 0 <= a < b < part.len() implies #[trigger] less.rank(
                    part[a],
                ) <= #[trigger] less.rank(part[b]) by {
                    assert(part[a] == whole[bounds@[h] - lo + a]);
                    assert(part[b] == whole[bounds@[h] - lo + b]);
                }
            }
        }
        f = g;
    }
    let ends = find_runs(v, &bounds, less);
    merge_runs(v, &ends, &mut ls.scratch, less);
}

} // verus!
