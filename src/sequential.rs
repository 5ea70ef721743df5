//! One level of sample sort, run sequentially: classification, distribution
//! of the blocks and buffer tails into bucket ranges, and the recursion over
//! the buckets.
use crate::base_case::{base_case_sort, swap_elems};
use crate::classifier::{lemma_bucket_order, lemma_classify_bounds, lemma_equal_bucket, Classifier};
use crate::constants::{
    exp2, ilog2, lemma_exp2_values, lemma_log2_exp2_bounds, lemma_log2_lt, log_buckets,
    oversampling_factor, pow2, spec_log2, spec_log_buckets, spec_oversampling, BLOCK_SIZE, BUCKET_BASE_CASE, EQUAL_BUCKET_THRESHOLD,
    LOG_MAX_BUCKETS, SINGLE_LEVEL_THRESHOLD,
};
use crate::local_classification::{blocks_uniform, buffers_classified};
use crate::multiset_sum::{
    lemma_empty_seq_ms, lemma_ms_split, lemma_sum_ms_empty, lemma_sum_ms_update, sum_ms,
};
use crate::order::{sorted_by, Less};
use crate::storage::{BucketBuffers, Ips4oRng, LocalStorage};
use vstd::multiset::Multiset;
use vstd::prelude::*;
use vstd::seq_lib::*;

verus! {

/// `bounds` cuts `s` into ranges, range `d` holding exactly the elements of
/// bucket `d`.
#[verifier::opaque]
pub open spec fn partitioned<T: Copy, L: Less<T>>(
    c: &Classifier<T>,
    less: &L,
    s: Seq<T>,
    bounds: Seq<usize>,
) -> bool {
    &&& bounds.len() == c.spec_num_buckets() + 1
    &&& bounds[0] == 0
    &&& bounds[bounds.len() - 1] == s.len()
    &&& forall|d: int| 0 <= d < c.spec_num_buckets() ==> #[trigger] bounds[d] <= bounds[d + 1]
    &&& forall|p: int|
        #![trigger s[p]]
        0 <= p < s.len() ==> {
            let e = c.bucket_of(less, s[p]);
            &&& 0 <= e < c.spec_num_buckets()
            &&& bounds[e] <= p < bounds[e + 1]
        }
}

/// The `m` first blocks of `s`.
pub open spec fn blocks_of<T>(s: Seq<T>, m: int) -> Seq<Seq<T>> {
    Seq::new(
        m as nat,
        |j: int| s.subrange(j * BLOCK_SIZE as int, j * BLOCK_SIZE as int + BLOCK_SIZE as int),
    )
}

proof fn lemma_blocks_ms<T>(s: Seq<T>, m: int)
    requires
        0 <= m,
        m * BLOCK_SIZE <= s.len(),
    ensures
        sum_ms(blocks_of(s, m), m) == s.subrange(0, m * BLOCK_SIZE as int).to_multiset(),
    decreases m,
{
    if m == 0 {
        lemma_empty_seq_ms(s.subrange(0, 0));
    } else {
        lemma_blocks_ms(s, m - 1);
        crate::multiset_sum::lemma_sum_ms_frame(blocks_of(s, m), blocks_of(s, m - 1), m - 1);
        lemma_ms_split(s, 0, (m - 1) * BLOCK_SIZE as int, m * BLOCK_SIZE as int);
    }
}

/// Appends `src` to `out`.
fn append_slice<T: Copy>(out: &mut Vec<T>, src: &[T])
    ensures
        final(out)@ == old(out)@ + src@,
{
    let mut t: usize = 0;
    while t < src.len()
        invariant
            t <= src@.len(),
            out@ == old(out)@ + src@.subrange(0, t as int),
        decreases src@.len() - t,
    {
        out.push(src[t]);
        t = t + 1;
        assert(out@ =~= old(out)@ + src@.subrange(0, t as int));
    }
    assert(src@.subrange(0, src@.len() as int) =~= src@);
}

/// The buckets of the first elements of the `nb` first blocks of `v`.
fn block_buckets<T: Copy, L: Less<T>>(c: &Classifier<T>, less: &L, v: &[T], nb: usize) -> (cls:
    Vec<usize>)
    requires
        less.valid(),
        c.wf(less),
        nb * BLOCK_SIZE <= v@.len(),
    ensures
        cls@.len() == nb,
        forall|q: int|
            0 <= q < nb ==> #[trigger] cls@[q] == c.bucket_of(less, v@[q * BLOCK_SIZE]) && cls@[q]
                < c.spec_num_buckets(),
{
    let mut cls: Vec<usize> = Vec::new();
    let vlen = v.len();
    let mut j: usize = 0;
    while j < nb
        invariant
            less.valid(),
            c.wf(less),
            vlen == v@.len(),
            nb * BLOCK_SIZE <= v@.len(),
            j <= nb,
            cls@.len() == j,
            forall|q: int|
                0 <= q < j ==> #[trigger] cls@[q] == c.bucket_of(less, v@[q * BLOCK_SIZE])
                    && cls@[q] < c.spec_num_buckets(),
        decreases nb - j,
    {
        assert(j * BLOCK_SIZE + BLOCK_SIZE <= nb * BLOCK_SIZE) by (nonlinear_arith)
            requires
                j < nb,
        ;
        assert(j * BLOCK_SIZE < vlen);
        let b = c.classify_single_element(less, &v[j * BLOCK_SIZE]);
        cls.push(b);
        assert(cls@[j as int] == c.bucket_of(less, v@[j * BLOCK_SIZE]));
        j = j + 1;
    }
    cls
}

/// Blocks not yet gathered once the buckets below `d`, and the blocks of
/// bucket `d` below `j`, are.
pub open spec fn pending_of<T>(blocks: Seq<Seq<T>>, cls: Seq<usize>, d: int, j: int) -> Seq<
    Seq<T>,
> {
    Seq::new(
        blocks.len(),
        |q: int|
            if cls[q] < d || (cls[q] == d && q < j) {
                Seq::empty()
            } else {
                blocks[q]
            },
    )
}

/// Buffer tails not yet gathered once the buckets below `d` are.
pub open spec fn rest_of<T>(bufs: Seq<Seq<T>>, d: int) -> Seq<Seq<T>> {
    Seq::new(bufs.len(), |e: int| if e < d { Seq::empty() } else { bufs[e] })
}

#[verifier::rlimit(100)]
/// Appends to `out` every block of `v[..nb * BLOCK_SIZE]` of bucket `d`, in
/// order.
fn gather_blocks<T: Copy, L: Less<T>>(
    c: &Classifier<T>,
    less: &L,
    v: &[T],
    nb: usize,
    cls: &Vec<usize>,
    d: usize,
    out: &mut Vec<T>,
)
    requires
        less.valid(),
        c.wf(less),
        nb * BLOCK_SIZE <= v@.len(),
        blocks_uniform(c, less, v@, nb * BLOCK_SIZE),
        cls@.len() == nb,
        forall|q: int| 0 <= q < nb ==> #[trigger] cls@[q] == c.bucket_of(less, v@[q * BLOCK_SIZE]),
    ensures
        final(out)@.subrange(0, old(out)@.len() as int) == old(out)@,
        old(out)@.len() <= final(out)@.len(),
        forall|p: int|
            old(out)@.len() <= p < final(out)@.len() ==> #[trigger] c.bucket_of(less, final(out)@[p])
                == d,
        final(out)@.to_multiset().add(
            sum_ms(pending_of(blocks_of(v@, nb as int), cls@, d as int, nb as int), nb as int),
        ) == old(out)@.to_multiset().add(
            sum_ms(pending_of(blocks_of(v@, nb as int), cls@, d as int, 0), nb as int),
        ),
{
    broadcast use vstd::multiset::group_multiset_axioms;
    broadcast use group_to_multiset_ensures;

    let ghost blocks = blocks_of(v@, nb as int);
    let ghost out_start = out@;
    let vlen = v.len();
    let mut j: usize = 0;
    while j < nb
        invariant
            less.valid(),
            c.wf(less),
            vlen == v@.len(),
            nb * BLOCK_SIZE <= v@.len(),
            blocks == blocks_of(v@, nb as int),
            blocks_uniform(c, less, v@, nb * BLOCK_SIZE),
            cls@.len() == nb,
            forall|q: int|
                0 <= q < nb ==> #[trigger] cls@[q] == c.bucket_of(less, v@[q * BLOCK_SIZE]),
            j <= nb,
            out_start.len() <= out@.len(),
            out@.subrange(0, out_start.len() as int) == out_start,
            forall|p: int|
                out_start.len() <= p < out@.len() ==> #[trigger] c.bucket_of(less, out@[p]) == d,
            out@.to_multiset().add(sum_ms(pending_of(blocks, cls@, d as int, j as int), nb as int))
                == out_start.to_multiset().add(
                sum_ms(pending_of(blocks, cls@, d as int, 0), nb as int),
            ),
        decreases nb - j,
    {
        if cls[j] == d {
            assert(j * BLOCK_SIZE + BLOCK_SIZE <= nb * BLOCK_SIZE) by (nonlinear_arith)
                requires
                    j < nb,
            ;
            let ghost out0 = out@;
            let blk = &v[j * BLOCK_SIZE..j * BLOCK_SIZE + BLOCK_SIZE];
            append_slice(out, blk);
            proof {
                lemma_gather_step(c, less, v@, nb as int, cls@, d as int, j as int, out0, out@, out_start);
            }
        } else {
            assert(pending_of(blocks, cls@, d as int, j + 1) =~= pending_of(
                blocks,
                cls@,
                d as int,
                j as int,
            ));
        }
        j = j + 1;
    }
}

#[verifier::rlimit(100)]
proof fn lemma_gather_step<T: Copy, L: Less<T>>(
    c: &Classifier<T>,
    less: &L,
    v: Seq<T>,
    nb: int,
    cls: Seq<usize>,
    d: int,
    j: int,
    out0: Seq<T>,
    out1: Seq<T>,
    out_start: Seq<T>,
)
    requires
        c.wf(less),
        0 <= j < nb,
        nb * BLOCK_SIZE <= v.len(),
        blocks_uniform(c, less, v, nb * BLOCK_SIZE),
        cls.len() == nb,
        cls[j] == d,
        forall|q: int| 0 <= q < nb ==> #[trigger] cls[q] == c.bucket_of(less, v[q * BLOCK_SIZE]),
        out1 == out0 + v.subrange(j * BLOCK_SIZE, j * BLOCK_SIZE + BLOCK_SIZE),
        out_start.len() <= out0.len(),
        out0.subrange(0, out_start.len() as int) == out_start,
        forall|p: int| out_start.len() <= p < out0.len() ==> #[trigger] c.bucket_of(less, out0[p]) == d,
        out0.to_multiset().add(sum_ms(pending_of(blocks_of(v, nb), cls, d, j), nb))
            == out_start.to_multiset().add(sum_ms(pending_of(blocks_of(v, nb), cls, d, 0), nb)),
    ensures
        out_start.len() <= out1.len(),
        out1.subrange(0, out_start.len() as int) == out_start,
        forall|p: int| out_start.len() <= p < out1.len() ==> #[trigger] c.bucket_of(less, out1[p]) == d,
        out1.to_multiset().add(sum_ms(pending_of(blocks_of(v, nb), cls, d, j + 1), nb))
            == out_start.to_multiset().add(sum_ms(pending_of(blocks_of(v, nb), cls, d, 0), nb)),
{
    broadcast use vstd::multiset::group_multiset_axioms;
    broadcast use group_to_multiset_ensures;

    let blocks = blocks_of(v, nb);
    let blk = v.subrange(j * BLOCK_SIZE, j * BLOCK_SIZE + BLOCK_SIZE);
    assert(j * BLOCK_SIZE + BLOCK_SIZE <= nb * BLOCK_SIZE) by (nonlinear_arith)
        requires
            j < nb,
    ;
    let pend0 = pending_of(blocks, cls, d, j);
    let pend1 = pending_of(blocks, cls, d, j + 1);
    assert(blk == blocks[j]);
    assert(pend1 =~= pend0.update(j, Seq::empty()));
    lemma_sum_ms_update(pend0, nb, j, Seq::empty());
    lemma_empty_seq_ms(Seq::<T>::empty());
    lemma_multiset_commutative(out0, blk);
    assert(pend0[j] == blocks[j]);
    assert forall|x: T| #[trigger] out1.to_multiset().add(sum_ms(pend1, nb)).count(x)
        == out0.to_multiset().add(sum_ms(pend0, nb)).count(x) by {
        assert(sum_ms(pend1, nb).add(blocks[j].to_multiset()).count(x) == sum_ms(pend0, nb).add(
            Seq::<T>::empty().to_multiset(),
        ).count(x));
    }
    assert(out1.to_multiset().add(sum_ms(pend1, nb)) =~= out0.to_multiset().add(sum_ms(pend0, nb)));
    assert forall|p: int| out_start.len() <= p < out1.len() implies #[trigger] c.bucket_of(
        less,
        out1[p],
    ) == d by {
        if p >= out0.len() {
            let q = j * BLOCK_SIZE + (p - out0.len());
            assert(out1[p] == v[q]);
            assert(q - q % (BLOCK_SIZE as int) == j * BLOCK_SIZE) by (nonlinear_arith)
                requires
                    q == j * BLOCK_SIZE + (p - out0.len()),
                    0 <= p - out0.len() < BLOCK_SIZE,
            ;
        } else {
            assert(out1[p] == out0[p]);
        }
    }
    assert(out1.subrange(0, out_start.len() as int) =~= out_start) by {
        assert forall|p: int| 0 <= p < out_start.len() implies out1.subrange(
            0,
            out_start.len() as int,
        )[p] == out_start[p] by {
            assert(out1[p] == out0[p]);
            assert(out0.subrange(0, out_start.len() as int)[p] == out_start[p]);
        }
    }
}

/// Gathers the blocks of `v[..w]` and the buffer tails into `out`, bucket by
/// bucket: first every block of the bucket, in order, then its tail. Returns
/// where each bucket's range begins, and the end.
fn distribute<T: Copy, L: Less<T>>(
    c: &Classifier<T>,
    less: &L,
    v: &[T],
    w: usize,
    buckets: &BucketBuffers<T>,
    out: &mut Vec<T>,
) -> (bounds: Vec<usize>)
    requires
        less.valid(),
        c.wf(less),
        w % BLOCK_SIZE == 0,
        w <= v@.len(),
        buffers_classified(c, less, buckets.view()),
        blocks_uniform(c, less, v@, w as int),
    ensures
        final(out)@.to_multiset() == v@.subrange(0, w as int).to_multiset().add(
            sum_ms(buckets.view(), c.spec_num_buckets()),
        ),
        partitioned(c, less, final(out)@, bounds@),
{
    broadcast use vstd::multiset::group_multiset_axioms;
    broadcast use group_to_multiset_ensures;

    let ghost k = c.spec_num_buckets();
    let num_buckets: usize = if c.equal_buckets {
        2 * c.splitter_len
    } else {
        c.splitter_len
    };
    let nb = w / BLOCK_SIZE;
    let ghost blocks = blocks_of(v@, nb as int);
    let cls = block_buckets(c, less, v, nb);
    out.clear();
    let mut bounds: Vec<usize> = Vec::new();
    bounds.push(0);
    let ghost bufs = buckets.view();
    let ghost m0 = v@.subrange(0, w as int).to_multiset().add(sum_ms(bufs, k));
    proof {
        lemma_blocks_ms(v@, nb as int);
        lemma_empty_seq_ms(out@);
        assert(pending_of(blocks, cls@, 0, 0) =~= blocks);
        assert(rest_of(bufs, 0) =~= bufs);
        assert(out@.to_multiset().add(sum_ms(pending_of(blocks, cls@, 0, 0), nb as int)).add(
            sum_ms(rest_of(bufs, 0), k),
        ) =~= m0);
    }
    let mut d: usize = 0;
    while d < num_buckets
        invariant
            less.valid(),
            c.wf(less),
            k == c.spec_num_buckets(),
            num_buckets == k,
            nb * BLOCK_SIZE == w <= v@.len(),
            blocks == blocks_of(v@, nb as int),
            blocks_uniform(c, less, v@, w as int),
            buffers_classified(c, less, buckets.view()),
            bufs == buckets.view(),
            cls@.len() == nb,
            forall|q: int|
                0 <= q < nb ==> #[trigger] cls@[q] == c.bucket_of(less, v@[q * BLOCK_SIZE])
                    && cls@[q] < k,
            d <= k,
            out@.to_multiset().add(sum_ms(pending_of(blocks, cls@, d as int, 0), nb as int)).add(
                sum_ms(rest_of(bufs, d as int), k),
            ) == m0,
            bounds@.len() == d + 1,
            bounds@[0] == 0,
            bounds@[d as int] == out@.len(),
            forall|e: int| 0 <= e < d ==> #[trigger] bounds@[e] <= bounds@[e + 1],
            forall|e: int, p: int|
                #![trigger bounds@[e], out@[p]]
                0 <= e < d && bounds@[e] <= p < bounds@[e + 1] ==> c.bucket_of(less, out@[p]) == e,
        decreases k - d,
    {
        let ghost out0 = out@;
        gather_blocks(c, less, v, nb, &cls, d, out);
        let ghost out1 = out@;
        assert(d < bufs.len());
        let tail = buckets.get(d);
        append_slice(out, tail);
        proof {
            let pa = pending_of(blocks, cls@, d as int, 0);
            let pb = pending_of(blocks, cls@, d as int, nb as int);
            let pc = pending_of(blocks, cls@, d + 1, 0);
            assert(pb =~= pc);
            let r0 = rest_of(bufs, d as int);
            let r1 = rest_of(bufs, d + 1);
            assert(r1 =~= r0.update(d as int, Seq::empty()));
            lemma_sum_ms_update(r0, k, d as int, Seq::empty());
            lemma_empty_seq_ms(Seq::<T>::empty());
            lemma_multiset_commutative(out1, tail@);
            assert forall|x: T| #[trigger] out@.to_multiset().add(sum_ms(pc, nb as int)).add(
                sum_ms(r1, k),
            ).count(x) == m0.count(x) by {
                assert(sum_ms(r1, k).add(tail@.to_multiset()).count(x) == sum_ms(r0, k).add(
                    Seq::<T>::empty().to_multiset(),
                ).count(x));
                assert(out1.to_multiset().add(sum_ms(pb, nb as int)).count(x)
                    == out0.to_multiset().add(sum_ms(pa, nb as int)).count(x));
                assert(out0.to_multiset().add(sum_ms(pa, nb as int)).add(sum_ms(r0, k)).count(x)
                    == m0.count(x));
            }
            assert(out@.to_multiset().add(sum_ms(pc, nb as int)).add(sum_ms(r1, k)) =~= m0);
        }
        bounds.push(out.len());
        proof {
            assert forall|e: int, p: int|
                #![trigger bounds@[e], out@[p]]
                0 <= e < d + 1 && bounds@[e] <= p < bounds@[e + 1] implies c.bucket_of(
                less,
                out@[p],
            ) == e by {
                assert(out@[p] == out1[p] || p >= out1.len());
                if e < d {
                    assert(bounds@[e + 1] <= out0.len()) by {
                        lemma_bounds_mono(bounds@, e + 1, d as int);
                    }
                    assert(out1[p] == out0[p]) by {
                        assert(out1.subrange(0, out0.len() as int)[p] == out0[p]);
                    }
                    assert(c.bucket_of(less, out0[p]) == e);
                } else if p >= out1.len() {
                    assert(out@[p] == tail@[p - out1.len()]);
                } else {
                    assert(out@[p] == out1[p]);
                }
            }
        }
        d = d + 1;
    }
    proof {
        lemma_sum_ms_empty(pending_of(blocks, cls@, d as int, 0), nb as int);
        lemma_sum_ms_empty(rest_of(bufs, d as int), k);
        assert(out@.to_multiset() =~= m0);
        reveal(partitioned);
        assert forall|p: int| 0 <= p < out@.len() implies {
            let e = c.bucket_of(less, #[trigger] out@[p]);
            &&& 0 <= e < c.spec_num_buckets()
            &&& bounds@[e] <= p < bounds@[e + 1]
        } by {
            let e = lemma_find_range(bounds@, p);
            assert(c.bucket_of(less, out@[p]) == e);
        }
    }
    bounds
}

proof fn lemma_bounds_mono(b: Seq<usize>, i: int, j: int)
    requires
        0 <= i <= j < b.len(),
        forall|e: int| 0 <= e < j ==> #[trigger] b[e] <= b[e + 1],
    ensures
        b[i] <= b[j],
    decreases j - i,
{
    if i < j {
        lemma_bounds_mono(b, i, j - 1);
    }
}

/// One partitioning step: classifies `v` locally, gathers blocks and tails
/// bucket by bucket in `scratch` and copies the result back. Returns the
/// bucket boundaries: range `d` of `v` then holds exactly the elements of
/// bucket `d`.
pub fn partition<T: Copy, L: Less<T>>(
    c: &Classifier<T>,
    less: &L,
    v: &mut [T],
    scratch: &mut Vec<T>,
) -> (bounds: Vec<usize>)
    requires
        less.valid(),
        c.wf(less),
    ensures
        final(v)@.len() == old(v)@.len(),
        final(v)@.to_multiset() == old(v)@.to_multiset(),
        partitioned(c, less, final(v)@, bounds@),
{
    broadcast use group_to_multiset_ensures;

    let num_buckets: usize = if c.equal_buckets {
        2 * c.splitter_len
    } else {
        c.splitter_len
    };
    let mut buckets = BucketBuffers::new(num_buckets);
    let w = c.classify_locally(less, v, &mut buckets);
    let bounds = distribute(c, less, v, w, &buckets, scratch);
    let n = v.len();
    proof {
        assert(scratch@.len() == scratch@.to_multiset().len());
        assert(v@.len() == old(v)@.to_multiset().len());
    }
    let mut i: usize = 0;
    while i < n
        invariant
            n == v@.len() == scratch@.len(),
            i <= n,
            forall|q: int| 0 <= q < i ==> #[trigger] v@[q] == scratch@[q],
        decreases n - i,
    {
        v[i] = scratch[i];
        i = i + 1;
    }
    assert(v@ =~= scratch@);
    bounds
}

proof fn lemma_equidistant_index(i: int, n: int, s: int)
    requires
        0 <= i < s <= n,
    ensures
        i <= i * n / s < n,
        i + 1 < s ==> i * n / s < (i + 1) * n / s,
{
    assert(i * n / s >= i) by (nonlinear_arith)
        requires
            0 <= i,
            0 < s <= n,
    ;
    assert(i * n / s < n) by (nonlinear_arith)
        requires
            0 <= i < s,
            0 < s <= n,
    ;
    assert(i * n / s < (i + 1) * n / s) by (nonlinear_arith)
        requires
            0 <= i,
            0 < s <= n,
    ;
}

/// Moves the sample to the front: for each `i < sample_size` in turn, swaps
/// positions `i` and `i * n / sample_size`, so that position `i` ends up
/// holding the element that stood at `i * n / sample_size`.
pub fn select_equidistant<T: Copy>(v: &mut [T], sample_size: usize)
    requires
        1 <= sample_size <= old(v)@.len(),
    ensures
        final(v)@.len() == old(v)@.len(),
        final(v)@.to_multiset() == old(v)@.to_multiset(),
        forall|i: int|
            0 <= i < sample_size ==> #[trigger] final(v)@[i] == old(v)@[i * old(v)@.len()
                / sample_size as int],
{
    let n = v.len();
    let mut i: usize = 0;
    while i < sample_size
        invariant
            n == v@.len() == old(v)@.len(),
            1 <= sample_size <= n,
            i <= sample_size,
            forall|a: int| 0 <= a < i ==> #[trigger] v@[a] == old(v)@[a * n / sample_size as int],
            forall|p: int|
                i <= p < n && (i == 0 || p > (i - 1) * n / sample_size as int) ==> #[trigger] v@[p]
                    == old(v)@[p],
            v@.to_multiset() == old(v)@.to_multiset(),
        decreases sample_size - i,
    {
        assert((i as u128) * (n as u128) <= 0xffff_ffff_ffff_ffff_ffff_ffff_ffff_ffffu128) by (nonlinear_arith)
            requires
                i as u128 <= 0xffff_ffff_ffff_ffffu128,
                n as u128 <= 0xffff_ffff_ffff_ffffu128,
        ;
        let j = ((i as u128) * (n as u128) / (sample_size as u128)) as usize;
        proof {
            lemma_equidistant_index(i as int, n as int, sample_size as int);
            assert(j == i * n / sample_size as int) by (nonlinear_arith)
                requires
                    j as int == (i as int * n as int) / sample_size as int,
            ;
            if i > 0 {
                lemma_equidistant_index(i - 1, n as int, sample_size as int);
            }
        }
        swap_elems(v, i, j);
        proof {
            if i + 1 < sample_size {
                lemma_equidistant_index(i as int, n as int, sample_size as int);
            }
        }
        i = i + 1;
    }
}

/// Moves a pseudorandom sample of `sample_size` elements to the front.
pub fn select_random<T: Copy>(v: &mut [T], sample_size: usize, rng: &mut Ips4oRng)
    requires
        sample_size <= old(v)@.len(),
    ensures
        final(v)@.len() == old(v)@.len(),
        final(v)@.to_multiset() == old(v)@.to_multiset(),
{
    let n = v.len();
    let mut i: usize = 0;
    while i < sample_size
        invariant
            n == v@.len(),
            i <= sample_size <= n,
            v@.to_multiset() == old(v)@.to_multiset(),
        decreases sample_size - i,
    {
        let j = rng.gen_index(i, n);
        swap_elems(v, i, j);
        i = i + 1;
    }
}

/// Splitter storage of `c` is well formed for `build`: a power of two of
/// ascending splitters.
pub open spec fn splitters_ready<T: Copy, L: Less<T>>(c: &Classifier<T>, less: &L) -> bool {
    &&& c.splitters@.len() == c.splitter_len
    &&& exists|m: nat| 1 <= m <= LOG_MAX_BUCKETS && c.splitter_len == exp2(m)
    &&& sorted_by(less, c.splitters@)
}

/// The distinct splitters picked from the first `m` candidates of the
/// sample `v`: candidate `t` (counting from 1) is `v[t * step - 1]`, and a
/// candidate is kept only when it ranks above the last one kept.
pub open spec fn distinct_picks<T, L: Less<T>>(less: &L, v: Seq<T>, step: int, m: nat) -> Seq<T>
    decreases m,
{
    if m == 0 {
        Seq::empty()
    } else {
        let d = distinct_picks(less, v, step, (m - 1) as nat);
        let x = v[m * step - 1];
        if d.len() == 0 || less.rank(d.last()) < less.rank(x) {
            d.push(x)
        } else {
            d
        }
    }
}

/// Number of candidates looked at: one per bucket boundary, as far as the
/// sample reaches.
pub open spec fn pick_count(sample_size: int, step: int, num_buckets: int) -> nat {
    if num_buckets - 1 <= sample_size / step {
        (num_buckets - 1) as nat
    } else {
        (sample_size / step) as nat
    }
}

/// Picks the splitters from the sorted sample `v[..sample_size]`: every
/// `step`-th element, skipping one equal to the previous pick, padded to a
/// power of two by repeating the last. Turns on equal buckets when the
/// distinct splitters fall short of `num_buckets - 1` by the threshold.
/// Returns the number of distinct splitters.
pub fn get_splitters<T: Copy, L: Less<T>>(
    v: &[T],
    sample_size: usize,
    step: usize,
    num_buckets: usize,
    c: &mut Classifier<T>,
    less: &L,
) -> (count: usize)
    requires
        less.valid(),
        1 <= step <= sample_size <= v@.len(),
        2 <= num_buckets <= 128,
        sorted_by(less, v@.subrange(0, sample_size as int)),
    ensures
        splitters_ready(final(c), less),
        1 <= count < final(c).splitter_len,
        final(c).splitter_len == exp2(spec_log2(count as nat) + 1),
        final(c).splitters@.subrange(0, count as int) == distinct_picks(
            less,
            v@,
            step as int,
            pick_count(sample_size as int, step as int, num_buckets as int),
        ),
        forall|i: int, j: int|
            0 <= i < j < count ==> less.rank(#[trigger] final(c).splitters@[i]) < less.rank(
                #[trigger] final(c).splitters@[j],
            ),
        forall|j: int|
            count <= j < final(c).splitter_len ==> #[trigger] final(c).splitters@[j]
                == final(c).splitters@[count - 1],
        forall|j: int|
            0 <= j < final(c).splitter_len ==> exists|p: int|
                0 <= p < sample_size && v@[p] == #[trigger] final(c).splitters@[j],
        final(c).equal_buckets == (num_buckets - 1 - count >= EQUAL_BUCKET_THRESHOLD),
{
    let set = c.get_all_splitters_mut();
    set.clear();
    let mut current = step - 1;
    set.push(v[current]);
    proof {
        let d0 = distinct_picks(less, v@, step as int, 0);
        assert(d0.len() == 0);
        assert(set@ =~= distinct_picks(less, v@, step as int, 1));
        assert(v@[current as int] == set@[0]);
    }
    let mut t: usize = 2;
    while t < num_buckets && step <= sample_size - 1 - current
        invariant
            less.valid(),
            1 <= step <= sample_size <= v@.len(),
            current == (t - 1) * step - 1,
            current < sample_size,
            2 <= t,
            t <= num_buckets,
            num_buckets <= 128,
            1 <= set@.len() <= t - 1,
            set@ == distinct_picks(less, v@, step as int, (t - 1) as nat),
            sorted_by(less, v@.subrange(0, sample_size as int)),
            forall|i: int, j: int|
                0 <= i < j < set@.len() ==> less.rank(#[trigger] set@[i]) < less.rank(
                    #[trigger] set@[j],
                ),
            forall|j: int|
                0 <= j < set@.len() ==> exists|p: int|
                    0 <= p < sample_size && v@[p] == #[trigger] set@[j],
        decreases num_buckets - t,
    {
        assert(current + step == t * step - 1) by (nonlinear_arith)
            requires
                current == (t - 1) * step - 1,
        ;
        current = current + step;
        let last = set[set.len() - 1];
        let ghost before = set@;
        if less.is_less(&last, &v[current]) {
            set.push(v[current]);
            proof {
                assert forall|i: int, j: int| 0 <= i < j < set@.len() implies less.rank(
                    #[trigger] set@[i],
                ) < less.rank(#[trigger] set@[j]) by {
                    if j == set@.len() - 1 && i < j - 1 {
                        assert(less.rank(before[i]) < less.rank(before[before.len() - 1]));
                    }
                }
                assert forall|j: int| 0 <= j < set@.len() implies exists|p: int|
                    0 <= p < sample_size && v@[p] == #[trigger] set@[j] by {
                    if j == set@.len() - 1 {
                        assert(v@[current as int] == set@[j]);
                    } else {
                        assert(set@[j] == before[j]);
                    }
                }
            }
        }
        proof {
            assert(t * step - 1 == current);
            assert(set@ == distinct_picks(less, v@, step as int, t as nat));
        }
        t = t + 1;
    }
    proof {
        let ss = sample_size as int;
        let st = step as int;
        if t < num_buckets {
            assert((t - 1) == ss / st) by (nonlinear_arith)
                requires
                    current == (t - 1) * st - 1,
                    current + st > ss - 1,
                    current < ss,
                    st >= 1,
            ;
        } else {
            assert(t - 1 <= ss / st) by (nonlinear_arith)
                requires
                    current == (t - 1) * st - 1,
                    current < ss,
                    st >= 1,
                    t >= 1,
            ;
        }
        assert(pick_count(ss, st, num_buckets as int) == t - 1);
    }
    let splitter_count = set.len();
    let max_splitters = num_buckets - 1;
    let use_equal_buckets = max_splitters - splitter_count >= EQUAL_BUCKET_THRESHOLD;
    let log = ilog2(splitter_count) + 1;
    proof {
        lemma_exp2_values();
        lemma_log2_lt(splitter_count as nat, 7);
        lemma_log2_exp2_bounds(splitter_count as nat);
    }
    let k = pow2(log);
    let last = set[splitter_count - 1];
    let ghost picked = set@;
    let mut i: usize = splitter_count;
    while i < k
        invariant
            less.valid(),
            splitter_count <= i <= k,
            set@.len() == i,
            set@.subrange(0, splitter_count as int) == picked,
            picked.len() == splitter_count,
            set@[splitter_count - 1] == last,
            1 <= splitter_count,
            forall|a: int, b: int|
                0 <= a < b < splitter_count ==> less.rank(#[trigger] set@[a]) < less.rank(
                    #[trigger] set@[b],
                ),
            forall|j: int| splitter_count <= j < i ==> #[trigger] set@[j] == last,
            forall|j: int|
                0 <= j < i ==> exists|p: int| 0 <= p < sample_size && v@[p] == #[trigger] set@[j],
        decreases k - i,
    {
        set.push(last);
        proof {
            assert forall|j: int| 0 <= j < set@.len() implies exists|p: int|
                0 <= p < sample_size && v@[p] == #[trigger] set@[j] by {
                if j == set@.len() - 1 {
                    assert(set@[j] == set@[splitter_count - 1]);
                }
            }
            assert(set@.subrange(0, splitter_count as int) =~= picked);
        }
        i = i + 1;
    }
    proof {
        assert(sorted_by(less, set@)) by {
            assert forall|a: int, b: int| 0 <= a < b < set@.len() implies #[trigger] less.rank(
                set@[a],
            ) <= #[trigger] less.rank(set@[b]) by {
                if b >= splitter_count && a < splitter_count - 1 {
                    assert(less.rank(set@[a]) < less.rank(set@[splitter_count - 1]));
                }
            }
        }
    }
    c.set_splitter_len(k);
    c.equal_buckets = use_equal_buckets;
    assert(1 <= log <= LOG_MAX_BUCKETS && c.splitter_len == exp2(log as nat));
    splitter_count
}

/// The subslice `v[lo..hi]`, borrowed mutably.
pub fn sub_mut<T>(v: &mut [T], lo: usize, hi: usize) -> (r: &mut [T])
    requires
        lo <= hi <= old(v)@.len(),
    ensures
        r@ == old(v)@.subrange(lo as int, hi as int),
        final(v)@ == old(v)@.subrange(0, lo as int) + final(r)@ + old(v)@.subrange(
            hi as int,
            old(v)@.len() as int,
        ),
{
    let (left, right) = v.split_at_mut(lo);
    let (mid, rest) = right.split_at_mut(hi - lo);
    mid
}

/// Index `i` lies in one range of the monotone `bounds`, which run from 0 to
/// past `i`.
proof fn lemma_find_range(bounds: Seq<usize>, i: int) -> (e: int)
    requires
        bounds.len() >= 2,
        bounds[0] == 0,
        0 <= i < bounds[bounds.len() - 1],
        forall|f: int| 0 <= f < bounds.len() - 1 ==> #[trigger] bounds[f] <= bounds[f + 1],
    ensures
        0 <= e < bounds.len() - 1,
        bounds[e] <= i < bounds[e + 1],
    decreases bounds.len(),
{
    let m = bounds.len() - 1;
    if i >= bounds[m - 1] {
        m - 1
    } else {
        let b2 = bounds.subrange(0, m);
        assert(forall|f: int| 0 <= f < b2.len() - 1 ==> #[trigger] b2[f] <= b2[f + 1]) by {
            assert forall|f: int| 0 <= f < b2.len() - 1 implies #[trigger] b2[f] <= b2[f + 1] by {
                assert(bounds[f] <= bounds[f + 1]);
            }
        }
        if m == 1 {
            assert(false);
            0
        } else {
            lemma_find_range(b2, i)
        }
    }
}

/// The bucket of each element of a partitioned sequence is the range that
/// holds it.
proof fn lemma_class_at<T: Copy, L: Less<T>>(
    c: &Classifier<T>,
    less: &L,
    s: Seq<T>,
    bounds: Seq<usize>,
    i: int,
) -> (e: int)
    requires
        partitioned(c, less, s, bounds),
        0 <= i < s.len(),
    ensures
        0 <= e < bounds.len() - 1,
        bounds[e] <= i < bounds[e + 1],
        c.bucket_of(less, s[i]) == e,
{
    reveal(partitioned);
    c.bucket_of(less, s[i])
}

/// The bounds of a partitioned sequence ascend.
proof fn lemma_partitioned_mono<T: Copy, L: Less<T>>(
    c: &Classifier<T>,
    less: &L,
    s: Seq<T>,
    bounds: Seq<usize>,
)
    requires
        partitioned(c, less, s, bounds),
    ensures
        bounds.len() == c.spec_num_buckets() + 1,
        bounds[0] == 0,
        bounds[bounds.len() - 1] == s.len(),
        forall|e: int| 0 <= e < bounds.len() - 1 ==> #[trigger] bounds[e] <= bounds[e + 1],
{
    reveal(partitioned);
}

proof fn lemma_sorted_pair<T: Copy, L: Less<T>>(
    c: &Classifier<T>,
    less: &L,
    s: Seq<T>,
    bounds: Seq<usize>,
    i: int,
    j: int,
)
    requires
        c.wf(less),
        partitioned(c, less, s, bounds),
        0 <= i < j < s.len(),
        forall|e: int|
            0 <= e < bounds.len() - 1 ==> sorted_by(
                less,
                #[trigger] s.subrange(bounds[e] as int, bounds[e + 1] as int),
            ),
    ensures
        less.rank(s[i]) <= less.rank(s[j]),
{
    lemma_partitioned_mono(c, less, s, bounds);
    let ei = lemma_class_at(c, less, s, bounds, i);
    let ej = lemma_class_at(c, less, s, bounds, j);
    if ei == ej {
        lemma_bounds_mono(bounds, ei + 1, bounds.len() - 1);
        let sub = s.subrange(bounds[ei] as int, bounds[ei + 1] as int);
        assert(sorted_by(less, sub));
        assert(sub[i - bounds[ei]] == s[i]);
        assert(sub[j - bounds[ei]] == s[j]);
    } else if ei < ej {
        lemma_bucket_order(c, less, s[i], s[j]);
    } else {
        lemma_bounds_mono(bounds, ej + 1, ei);
    }
}

/// Sorted buckets in bucket order make a sorted sequence.
proof fn lemma_sorted_from_buckets<T: Copy, L: Less<T>>(
    c: &Classifier<T>,
    less: &L,
    s: Seq<T>,
    bounds: Seq<usize>,
)
    requires
        c.wf(less),
        partitioned(c, less, s, bounds),
        forall|e: int|
            0 <= e < bounds.len() - 1 ==> sorted_by(
                less,
                #[trigger] s.subrange(bounds[e] as int, bounds[e + 1] as int),
            ),
    ensures
        sorted_by(less, s),
{
    assert forall|i: int, j: int| 0 <= i < j < s.len() implies #[trigger] less.rank(s[i])
        <= #[trigger] less.rank(s[j]) by {
        lemma_sorted_pair(c, less, s, bounds, i, j);
    }
}

/// Elements of a sequence with the multiset of another occur in the other.
pub proof fn lemma_ms_member<T>(a: Seq<T>, b: Seq<T>, i: int) -> (j: int)
    requires
        a.to_multiset() == b.to_multiset(),
        0 <= i < a.len(),
    ensures
        0 <= j < b.len(),
        b[j] == a[i],
{
    a.to_multiset_ensures();
    b.to_multiset_ensures();
    assert(a.contains(a[i]));
    assert(a.to_multiset().count(a[i]) > 0);
    assert(b.to_multiset().count(a[i]) > 0);
    assert(b.contains(a[i]));
    choose|j: int| 0 <= j < b.len() && b[j] == a[i]
}

/// Replacing the middle of a sequence by a permutation of it keeps the
/// multiset.
pub proof fn lemma_replace_middle_ms<T>(before: Seq<T>, lo: int, hi: int, r: Seq<T>)
    requires
        0 <= lo <= hi <= before.len(),
        r.to_multiset() == before.subrange(lo, hi).to_multiset(),
    ensures
        (before.subrange(0, lo) + r + before.subrange(hi, before.len() as int)).to_multiset()
            == before.to_multiset(),
{
    broadcast use vstd::multiset::group_multiset_axioms;

    let n = before.len() as int;
    let a = before.subrange(0, lo);
    let c = before.subrange(hi, n);
    lemma_multiset_commutative(a, r);
    lemma_multiset_commutative(a + r, c);
    lemma_ms_split(before, 0, lo, hi);
    lemma_ms_split(before, 0, hi, n);
    assert(before.subrange(0, n) =~= before);
    assert((a + r + c).to_multiset() =~= before.to_multiset());
}

/// Replacing bucket `d` of a partitioned sequence by a permutation of it
/// keeps the partition.
#[verifier::rlimit(100)]
proof fn lemma_bucket_step_partition<T: Copy, L: Less<T>>(
    c: &Classifier<T>,
    less: &L,
    before: Seq<T>,
    after: Seq<T>,
    bounds: Seq<usize>,
    d: int,
    r: Seq<T>,
)
    requires
        partitioned(c, less, before, bounds),
        0 <= d < bounds.len() - 1,
        r.to_multiset() == before.subrange(bounds[d] as int, bounds[d + 1] as int).to_multiset(),
        after.len() == before.len(),
        bounds[d] <= bounds[d + 1] <= before.len(),
        r.len() == bounds[d + 1] - bounds[d],
        after.subrange(bounds[d] as int, bounds[d + 1] as int) == r,
        forall|p: int|
            0 <= p < before.len() && !(bounds[d] <= p < bounds[d + 1]) ==> #[trigger] after[p]
                == before[p],
    ensures
        partitioned(c, less, after, bounds),
{
    reveal(partitioned);
    let lo = bounds[d] as int;
    let hi = bounds[d + 1] as int;
    assert forall|p: int| 0 <= p < after.len() implies {
        let e = c.bucket_of(less, #[trigger] after[p]);
        &&& 0 <= e < c.spec_num_buckets()
        &&& bounds[e] <= p < bounds[e + 1]
    } by {
        if lo <= p < hi {
            let q = lemma_ms_member(r, before.subrange(lo, hi), p - lo);
            assert(after.subrange(lo, hi)[p - lo] == after[p]);
            assert(r[p - lo] == after[p]);
            assert(before[lo + q] == after[p]);
            assert(bounds[d] <= lo + q < bounds[d + 1]);
            let e = c.bucket_of(less, before[lo + q]);
            if e < d {
                lemma_bounds_mono(bounds, e + 1, d);
            } else if e > d {
                lemma_bounds_mono(bounds, d + 1, e);
            }
        } else {
            assert(after[p] == before[p]);
        }
    }
}

/// Replacing bucket `d` of a partitioned sequence by a sorted permutation of
/// it keeps the partition and the multiset, and the other buckets.
proof fn lemma_bucket_step<T: Copy, L: Less<T>>(
    c: &Classifier<T>,
    less: &L,
    before: Seq<T>,
    after: Seq<T>,
    bounds: Seq<usize>,
    d: int,
    r: Seq<T>,
)
    requires
        partitioned(c, less, before, bounds),
        0 <= d < bounds.len() - 1,
        r.to_multiset() == before.subrange(bounds[d] as int, bounds[d + 1] as int).to_multiset(),
        after == before.subrange(0, bounds[d] as int) + r + before.subrange(
            bounds[d + 1] as int,
            before.len() as int,
        ),
    ensures
        after.len() == before.len(),
        after.to_multiset() == before.to_multiset(),
        partitioned(c, less, after, bounds),
        forall|e: int|
            0 <= e < bounds.len() - 1 && e != d ==> #[trigger] after.subrange(
                bounds[e] as int,
                bounds[e + 1] as int,
            ) == before.subrange(bounds[e] as int, bounds[e + 1] as int),
        after.subrange(bounds[d] as int, bounds[d + 1] as int) == r,
{
    let lo = bounds[d] as int;
    let hi = bounds[d + 1] as int;
    let n = before.len() as int;
    lemma_partitioned_mono(c, less, before, bounds);
    lemma_bounds_mono(bounds, 0, d);
    lemma_bounds_mono(bounds, d + 1, bounds.len() - 1);
    r.to_multiset_ensures();
    before.subrange(lo, hi).to_multiset_ensures();
    assert(r.len() == hi - lo);
    lemma_replace_middle_ms(before, lo, hi, r);
    assert(after.subrange(lo, hi) =~= r);
    assert forall|p: int| 0 <= p < n && !(lo <= p < hi) implies #[trigger] after[p] == before[p] by {
        if p < lo {
            assert(after[p] == before.subrange(0, lo)[p]);
        } else {
            assert(after[p] == before.subrange(hi, n)[p - hi]);
        }
    }
    lemma_bucket_step_partition(c, less, before, after, bounds, d, r);
    assert forall|e: int|
        0 <= e < bounds.len() - 1 && e != d implies #[trigger] after.subrange(
        bounds[e] as int,
        bounds[e + 1] as int,
    ) == before.subrange(bounds[e] as int, bounds[e + 1] as int) by {
        if e < d {
            lemma_bounds_mono(bounds, e + 1, d);
        } else {
            lemma_bounds_mono(bounds, d + 1, e);
        }
        lemma_bounds_mono(bounds, e + 1, bounds.len() - 1);
        assert forall|p: int| 0 <= p < bounds[e + 1] - bounds[e] implies #[trigger] after.subrange(
            bounds[e] as int,
            bounds[e + 1] as int,
        )[p] == before.subrange(bounds[e] as int, bounds[e + 1] as int)[p] by {
            assert(after[bounds[e] + p] == before[bounds[e] + p]);
        }
        assert(after.subrange(bounds[e] as int, bounds[e + 1] as int) =~= before.subrange(
            bounds[e] as int,
            bounds[e + 1] as int,
        ));
    }
}

/// Sorts `v`: short inputs with the base case, longer ones by sample sort.
pub fn sequential<T: Copy, L: Less<T>>(v: &mut [T], ls: &mut LocalStorage<T>, less: &L)
    requires
        less.valid(),
    ensures
        final(v)@.len() == old(v)@.len(),
        sorted_by(less, final(v)@),
        final(v)@.to_multiset() == old(v)@.to_multiset(),
    decreases old(v)@.len(), 3int,
{
    if v.len() <= BUCKET_BASE_CASE {
        base_case_sort(v, less);
        return;
    }
    seq_recurse(v, ls, false, less);
}

/// Sorts the slice `v[lo..hi]` in place: by the base case, or by another
/// level of sample sort when it is long and shorter than `bound`.
fn sort_range<T: Copy, L: Less<T>>(
    v: &mut [T],
    lo: usize,
    hi: usize,
    ls: &mut LocalStorage<T>,
    recurse: bool,
    unbalanced: bool,
    less: &L,
    Ghost(bound): Ghost<int>,
)
    requires
        less.valid(),
        lo <= hi <= old(v)@.len(),
        recurse ==> hi - lo < bound && hi - lo > BUCKET_BASE_CASE,
    ensures
        final(v)@ == old(v)@.subrange(0, lo as int) + final(v)@.subrange(lo as int, hi as int)
            + old(v)@.subrange(hi as int, old(v)@.len() as int),
        sorted_by(less, final(v)@.subrange(lo as int, hi as int)),
        final(v)@.subrange(lo as int, hi as int).to_multiset() == old(v)@.subrange(
            lo as int,
            hi as int,
        ).to_multiset(),
    decreases bound, 1int,
{
    let r = sub_mut(v, lo, hi);
    if recurse {
        seq_recurse(r, ls, unbalanced, less);
    } else {
        base_case_sort(r, less);
    }
    assert(v@.subrange(lo as int, hi as int) =~= r@);
}

/// The sample of `n` elements: `step` candidates per bucket, `num_buckets`
/// buckets, and no more than half the input.
pub open spec fn spec_sample_size(n: int) -> int {
    let prod = spec_oversampling(n) * exp2(spec_log_buckets(n) as nat) - 1;
    if prod < n / 2 {
        prod
    } else {
        n / 2
    }
}

/// Moves the sample to the front and sorts it. The sample is taken
/// equidistantly, or pseudorandomly for an unbalanced input. Returns the
/// sample size, the number of candidates per bucket and the bucket count.
pub fn select_and_sort_sample<T: Copy, L: Less<T>>(
    v: &mut [T],
    ls: &mut LocalStorage<T>,
    unbalanced: bool,
    less: &L,
) -> (r: (usize, usize, usize))
    requires
        less.valid(),
        old(v)@.len() > BUCKET_BASE_CASE,
    ensures
        final(v)@.len() == old(v)@.len(),
        final(v)@.to_multiset() == old(v)@.to_multiset(),
        r.1 == spec_oversampling(old(v)@.len() as int),
        r.2 == exp2(spec_log_buckets(old(v)@.len() as int) as nat),
        r.0 == spec_sample_size(old(v)@.len() as int),
        1 <= r.1 <= r.0 < old(v)@.len(),
        2 <= r.2 <= 128,
        sorted_by(less, final(v)@.subrange(0, r.0 as int)),
        !unbalanced ==> final(v)@.subrange(0, r.0 as int).to_multiset() == Seq::new(
            r.0 as nat,
            |i: int| old(v)@[i * old(v)@.len() / r.0 as int],
        ).to_multiset(),
    decreases old(v)@.len(), 0int,
{
    broadcast use group_to_multiset_ensures;

    let n = v.len();
    let log = log_buckets(n);
    let num_buckets = pow2(log);
    let step = oversampling_factor(n);
    proof {
        lemma_exp2_values();
        crate::constants::lemma_exp2_le(log as nat, 7);
        crate::constants::lemma_exp2_le(1, log as nat);
    }
    assert(step * num_buckets >= 2 * step) by (nonlinear_arith)
        requires
            num_buckets >= 2,
            step >= 1,
    ;
    assert(step * num_buckets <= 16 * 128) by (nonlinear_arith)
        requires
            num_buckets <= 128,
            step <= 16,
    ;
    let sample_size = if step * num_buckets - 1 < n / 2 {
        step * num_buckets - 1
    } else {
        n / 2
    };
    if unbalanced {
        select_random(v, sample_size, &mut ls.rng);
    } else {
        select_equidistant(v, sample_size);
    }
    let ghost v1 = v@;
    proof {
        if !unbalanced {
            assert(v1.subrange(0, sample_size as int) =~= Seq::new(
                sample_size as nat,
                |i: int| old(v)@[i * n / sample_size as int],
            ));
        }
    }
    {
        let sample = sub_mut(v, 0, sample_size);
        sequential(sample, ls, less);
        assert(v@.subrange(0, sample_size as int) =~= sample@);
    }
    proof {
        lemma_ms_split(v1, 0, sample_size as int, n as int);
        lemma_ms_split(v@, 0, sample_size as int, n as int);
        assert(v@.subrange(sample_size as int, n as int) =~= v1.subrange(
            sample_size as int,
            n as int,
        ));
        assert(v@.subrange(0, n as int) =~= v@);
        assert(v1.subrange(0, n as int) =~= v1);
    }
    (sample_size, step, num_buckets)
}

/// One partitioning level: moves a sample to the front (equidistant, or
/// pseudorandom for an unbalanced input), sorts it, picks the splitters from
/// it, builds the classifier in `ls` and partitions `v` by it. Returns the
/// bucket boundaries.
pub fn partition_level<T: Copy, L: Less<T>>(
    v: &mut [T],
    ls: &mut LocalStorage<T>,
    unbalanced: bool,
    less: &L,
) -> (bounds: Vec<usize>)
    requires
        less.valid(),
        old(v)@.len() > BUCKET_BASE_CASE,
    ensures
        final(v)@.len() == old(v)@.len(),
        final(v)@.to_multiset() == old(v)@.to_multiset(),
        final(ls).classifier.wf(less),
        partitioned(&final(ls).classifier, less, final(v)@, bounds@),
    decreases old(v)@.len(), 1int,
{
    let (sample_size, step, num_buckets) = select_and_sort_sample(v, ls, unbalanced, less);
    get_splitters(v, sample_size, step, num_buckets, &mut ls.classifier, less);
    ls.classifier.build(less);
    partition(&ls.classifier, less, v, &mut ls.scratch)
}

/// One level of sample sort on `v`, then the buckets in turn.
fn seq_recurse<T: Copy, L: Less<T>>(
    v: &mut [T],
    ls: &mut LocalStorage<T>,
    unbalanced: bool,
    less: &L,
)
    requires
        less.valid(),
        old(v)@.len() > BUCKET_BASE_CASE,
    ensures
        final(v)@.len() == old(v)@.len(),
        sorted_by(less, final(v)@),
        final(v)@.to_multiset() == old(v)@.to_multiset(),
    decreases old(v)@.len(), 2int,
{
    broadcast use group_to_multiset_ensures;

    let n = v.len();
    let bounds = partition_level(v, ls, unbalanced, less);
    let ghost c0 = ls.classifier;
    proof {
        lemma_partitioned_mono(&c0, less, v@, bounds@);
    }
    let equal_buckets = ls.classifier.equal_buckets;
    let k = bounds.len() - 1;
    let ghost v2 = v@;
    proof {
        crate::constants::lemma_exp2_le(1, c0.log_buckets as nat);
        lemma_exp2_values();
    }
    assert(2 * (n / k) <= n) by (nonlinear_arith)
        requires
            k >= 2,
    ;
    let mut d: usize = 0;
    while d < k
        invariant
            less.valid(),
            c0.wf(less),
            n == v@.len() == old(v)@.len(),
            k == bounds@.len() - 1 == c0.spec_num_buckets(),
            k >= 2,
            2 * (n / k) <= n,
            equal_buckets == c0.equal_buckets,
            d <= k,
            partitioned(&c0, less, v@, bounds@),
            forall|e: int|
                0 <= e < d ==> sorted_by(
                    less,
                    #[trigger] v@.subrange(bounds@[e] as int, bounds@[e + 1] as int),
                ),
            v@.to_multiset() == old(v)@.to_multiset(),
        decreases k - d,
    {
        proof {
            lemma_partitioned_mono(&c0, less, v@, bounds@);
            lemma_bounds_mono(bounds@, d + 1, k as int);
        }
        let lo = bounds[d];
        let hi = bounds[d + 1];
        let ghost before = v@;
        if equal_buckets && d % 2 == 1 && d + 1 < k {
            proof {
                let sub = v@.subrange(lo as int, hi as int);
                assert forall|i: int, j: int| 0 <= i < j < sub.len() implies #[trigger] less.rank(
                    sub[i],
                ) <= #[trigger] less.rank(sub[j]) by {
                    let ei = lemma_class_at(&c0, less, v@, bounds@, lo + i);
                    let ej = lemma_class_at(&c0, less, v@, bounds@, lo + j);
                    if ei != d as int {
                        if ei < d {
                            lemma_bounds_mono(bounds@, ei + 1, d as int);
                        } else {
                            lemma_bounds_mono(bounds@, d + 1, ei);
                        }
                    }
                    if ej != d as int {
                        if ej < d {
                            lemma_bounds_mono(bounds@, ej + 1, d as int);
                        } else {
                            lemma_bounds_mono(bounds@, d + 1, ej);
                        }
                    }
                    lemma_equal_bucket(&c0, less, v@[lo + i], v@[lo + j]);
                }
            }
        } else {
            let len = hi - lo;
            let recurse = len > BUCKET_BASE_CASE && n > SINGLE_LEVEL_THRESHOLD && len < n;
            let new_unbalanced = len > 2 * (n / k);
            sort_range(v, lo, hi, ls, recurse, new_unbalanced, less, Ghost(n as int));
            proof {
                let r = v@.subrange(lo as int, hi as int);
                lemma_bucket_step(&c0, less, before, v@, bounds@, d as int, r);
                assert(sorted_by(less, v@.subrange(bounds@[d as int] as int, bounds@[d + 1] as int)));
            }
        }
        d = d + 1;
    }
    proof {
        lemma_sorted_from_buckets(&c0, less, v@, bounds@);
    }
}

} // verus!

verus! {

/// Bucket `d` of `bounds` is recursed on: it is longer than the base case
/// bound, and it is not an equal bucket other than the last.
pub open spec fn planned(bounds: Seq<usize>, d: int, equal_buckets: bool) -> bool {
    &&& bounds[d + 1] - bounds[d] > BUCKET_BASE_CASE
    &&& !(equal_buckets && d % 2 == 1 && d + 2 != bounds.len())
}

/// The plan entry for bucket `d`: its range, and whether it is long enough
/// to be partitioned by all threads rather than sorted by one.
pub open spec fn plan_entry(bounds: Seq<usize>, d: int, n: int, threads: int) -> (
    usize,
    usize,
    bool,
) {
    (bounds[d], bounds[d + 1], bounds[d + 1] - bounds[d] > n / (threads / 2))
}

/// `plan` lists, in order and once each, exactly the buckets `ds` of
/// `bounds` that are recursed on.
pub open spec fn plan_matches(
    plan: Seq<(usize, usize, bool)>,
    bounds: Seq<usize>,
    ds: Seq<int>,
    n: int,
    threads: int,
    equal_buckets: bool,
) -> bool {
    &&& ds.len() == plan.len()
    &&& forall|e: int|
        0 <= e < ds.len() ==> 0 <= #[trigger] ds[e] < bounds.len() - 1 && planned(
            bounds,
            ds[e],
            equal_buckets,
        ) && plan[e] == plan_entry(bounds, ds[e], n, threads)
    &&& forall|e: int, f: int| 0 <= e < f < ds.len() ==> #[trigger] ds[e] < #[trigger] ds[f]
    &&& forall|d: int|
        0 <= d < bounds.len() - 1 && #[trigger] planned(bounds, d, equal_buckets) ==> exists|e: int|
            0 <= e < ds.len() && #[trigger] ds[e] == d
}

/// The recursion after a parallel partitioning level: the buckets that need
/// another level, in order, each with its range and whether it is handed to
/// all threads (longer than `n / (threads / 2)`) or to one.
pub fn recursion_plan(bounds: &Vec<usize>, n: usize, threads: usize, equal_buckets: bool) -> (plan:
    Vec<(usize, usize, bool)>)
    requires
        threads >= 2,
        bounds@.len() >= 2,
        forall|d: int| 0 <= d < bounds@.len() - 1 ==> #[trigger] bounds@[d] <= bounds@[d + 1],
    ensures
        exists|ds: Seq<int>|
            #[trigger] plan_matches(plan@, bounds@, ds, n as int, threads as int, equal_buckets),
{
    let k = bounds.len() - 1;
    let unbalancing_factor = threads / 2;
    let mut plan: Vec<(usize, usize, bool)> = Vec::new();
    let ghost mut ds: Seq<int> = Seq::empty();
    let mut d: usize = 0;
    while d < k
        invariant
            k == bounds@.len() - 1,
            threads >= 2,
            unbalancing_factor == threads / 2,
            forall|x: int| 0 <= x < bounds@.len() - 1 ==> #[trigger] bounds@[x] <= bounds@[x + 1],
            d <= k,
            ds.len() == plan@.len(),
            forall|e: int|
                0 <= e < ds.len() ==> 0 <= #[trigger] ds[e] < d && planned(
                    bounds@,
                    ds[e],
                    equal_buckets,
                ) && plan@[e] == plan_entry(bounds@, ds[e], n as int, threads as int),
            forall|e: int, f: int| 0 <= e < f < ds.len() ==> #[trigger] ds[e] < #[trigger] ds[f],
            forall|x: int|
                0 <= x < d && #[trigger] planned(bounds@, x, equal_buckets) ==> exists|e: int|
                    0 <= e < ds.len() && #[trigger] ds[e] == x,
        decreases k - d,
    {
        let len = bounds[d + 1] - bounds[d];
        let skip = equal_buckets && d % 2 == 1 && d + 1 != k;
        if len > BUCKET_BASE_CASE && !skip {
            plan.push((bounds[d], bounds[d + 1], len > n / unbalancing_factor));
            proof {
                let old_ds = ds;
                ds = ds.push(d as int);
                assert forall|x: int|
                    0 <= x < d + 1 && #[trigger] planned(bounds@, x, equal_buckets) implies exists|
                    e: int,
                | 0 <= e < ds.len() && #[trigger] ds[e] == x by {
                    if x == d {
                        assert(ds[ds.len() - 1] == x);
                    } else {
                        let e = choose|e: int| 0 <= e < old_ds.len() && old_ds[e] == x;
                        assert(ds[e] == x);
                    }
                }
            }
        }
        d = d + 1;
    }
    assert(plan_matches(plan@, bounds@, ds, n as int, threads as int, equal_buckets));
    plan
}

} // verus!
