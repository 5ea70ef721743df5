//! Local classification: one pass over a stripe that sorts its elements into
//! per-bucket buffers and writes every full buffer back to the front of the
//! stripe as one block.
use crate::classifier::{lemma_classify_bounds, Classifier, BATCH_SIZE};
use crate::constants::BLOCK_SIZE;
use crate::multiset_sum::{lemma_empty_seq_ms, lemma_ms_split, lemma_sum_ms_len, lemma_sum_ms_update, sum_ms};
use crate::order::Less;
use crate::storage::BucketBuffers;
use vstd::multiset::Multiset;
use vstd::prelude::*;
use vstd::seq_lib::*;

verus! {

/// Every element of `s[..w]` is in the bucket of the first element of its block.
pub open spec fn blocks_uniform<T: Copy, L: Less<T>>(
    c: &Classifier<T>,
    less: &L,
    s: Seq<T>,
    w: int,
) -> bool {
    forall|p: int|
        0 <= p < w ==> #[trigger] c.bucket_of(less, s[p]) == c.bucket_of(
            less,
            s[p - p % (BLOCK_SIZE as int)],
        )
}

/// Every buffer holds only elements of its own bucket, and less than a block.
pub open spec fn buffers_classified<T: Copy, L: Less<T>>(
    c: &Classifier<T>,
    less: &L,
    bufs: Seq<Seq<T>>,
) -> bool {
    &&& bufs.len() == c.spec_num_buckets()
    &&& forall|d: int| 0 <= d < bufs.len() ==> (#[trigger] bufs[d]).len() < BLOCK_SIZE
    &&& forall|d: int, t: int|
        0 <= d < bufs.len() && 0 <= t < bufs[d].len() ==> #[trigger] c.bucket_of(less, bufs[d][t])
            == d
}

impl<T: Copy> Classifier<T> {
    /// Puts `stripe[pos]`, of bucket `bucket`, into its buffer; a buffer that
    /// becomes full is written back as the block at `w`. Returns the new write
    /// position.
    fn insert_into_bucket<L: Less<T>>(
        &self,
        less: &L,
        stripe: &mut [T],
        buckets: &mut BucketBuffers<T>,
        pos: usize,
        bucket: usize,
        w: usize,
    ) -> (nw: usize)
        requires
            less.valid(),
            self.wf(less),
            pos < old(stripe)@.len(),
            w <= pos,
            w % BLOCK_SIZE == 0,
            bucket == self.bucket_of(less, old(stripe)@[pos as int]),
            buffers_classified(self, less, old(buckets).view()),
            blocks_uniform(self, less, old(stripe)@, w as int),
            sum_ms(old(buckets).view(), self.spec_num_buckets()).len() == pos - w,
        ensures
            nw % BLOCK_SIZE == 0,
            nw <= pos + 1,
            final(stripe)@.len() == old(stripe)@.len(),
            final(stripe)@.subrange(pos + 1, old(stripe)@.len() as int) == old(stripe)@.subrange(
                pos + 1,
                old(stripe)@.len() as int,
            ),
            buffers_classified(self, less, final(buckets).view()),
            blocks_uniform(self, less, final(stripe)@, nw as int),
            sum_ms(final(buckets).view(), self.spec_num_buckets()).len() == pos + 1 - nw,
            final(stripe)@.subrange(0, nw as int).to_multiset().add(
                sum_ms(final(buckets).view(), self.spec_num_buckets()),
            ) == old(stripe)@.subrange(0, w as int).to_multiset().add(
                sum_ms(old(buckets).view(), self.spec_num_buckets()),
            ).insert(old(stripe)@[pos as int]),
    {
        broadcast use vstd::multiset::group_multiset_axioms;
        broadcast use group_to_multiset_ensures;

        let ghost k = self.spec_num_buckets();
        let ghost s0 = stripe@;
        let ghost b0 = buckets.view();
        let x = stripe[pos];
        proof {
            lemma_classify_bounds(self, less, x);
        }
        buckets.push(bucket, x);
        let ghost b1 = buckets.view();
        proof {
            lemma_sum_ms_update(b0, k, bucket as int, b0[bucket as int].push(x));
            assert(b0[bucket as int].push(x).to_multiset() == b0[bucket as int].to_multiset().insert(
                x,
            ));
            assert forall|v: T| #[trigger] sum_ms(b1, k).count(v) == sum_ms(b0, k).insert(x).count(v) by {
                assert(sum_ms(b1, k).add(b0[bucket as int].to_multiset()).count(v) == sum_ms(
                    b0,
                    k,
                ).add(b0[bucket as int].push(x).to_multiset()).count(v));
            }
            assert(sum_ms(b1, k) =~= sum_ms(b0, k).insert(x));
            assert(sum_ms(b1, k).len() == sum_ms(b0, k).len() + 1);
        }
        if buckets.len(bucket) < BLOCK_SIZE {
            assert(s0.subrange(0, w as int).to_multiset().add(sum_ms(b1, k)) =~= s0.subrange(
                0,
                w as int,
            ).to_multiset().add(sum_ms(b0, k)).insert(x));
            return w;
        }
        proof {
            lemma_sum_ms_len(b1, k, bucket as int);
        }
        let blk = buckets.get(bucket);
        let mut t: usize = 0;
        while t < BLOCK_SIZE
            invariant
                w + BLOCK_SIZE <= pos + 1,
                pos < s0.len(),
                blk@ == b1[bucket as int],
                blk@.len() == BLOCK_SIZE,
                t <= BLOCK_SIZE,
                stripe@.len() == s0.len(),
                forall|q: int|
                    0 <= q < s0.len() && !(w <= q < w + t) ==> #[trigger] stripe@[q] == s0[q],
                forall|q: int| w <= q < w + t ==> #[trigger] stripe@[q] == blk@[q - w],
            decreases BLOCK_SIZE - t,
        {
            stripe[w + t] = blk[t];
            t = t + 1;
        }
        let ghost s1 = stripe@;
        buckets.clear(bucket);
        let nw = w + BLOCK_SIZE;
        proof {
            let n = s0.len() as int;
            assert(s1.subrange(pos + 1, n) =~= s0.subrange(pos + 1, n));
            assert(s1.subrange(0, w as int) =~= s0.subrange(0, w as int));
            assert(s1.subrange(w as int, nw as int) =~= b1[bucket as int]);
            lemma_ms_split(s1, 0, w as int, nw as int);
            lemma_sum_ms_update(b1, k, bucket as int, Seq::empty());
            lemma_empty_seq_ms(Seq::<T>::empty());
            assert(buckets.view() == b1.update(bucket as int, Seq::empty()));
            let b2 = buckets.view();
            assert(sum_ms(b2, k).add(b1[bucket as int].to_multiset()) == sum_ms(b1, k));
            assert(sum_ms(b2, k).len() + BLOCK_SIZE == sum_ms(b1, k).len());
            assert forall|v: T| #[trigger] s1.subrange(0, nw as int).to_multiset().add(
                sum_ms(b2, k),
            ).count(v) == s0.subrange(0, w as int).to_multiset().add(sum_ms(b0, k)).insert(
                x,
            ).count(v) by {
                assert(sum_ms(b2, k).add(b1[bucket as int].to_multiset()).count(v) == sum_ms(
                    b1,
                    k,
                ).count(v));
            }
            assert(s1.subrange(0, nw as int).to_multiset().add(sum_ms(b2, k))
                =~= s0.subrange(0, w as int).to_multiset().add(sum_ms(b0, k)).insert(x));
            assert forall|p: int| 0 <= p < nw implies #[trigger] self.bucket_of(less, s1[p])
                == self.bucket_of(less, s1[p - p % (BLOCK_SIZE as int)]) by {
                if p >= w {
                    assert(p - p % (BLOCK_SIZE as int) == w);
                    assert(self.bucket_of(less, b1[bucket as int][p - w]) == bucket);
                    assert(self.bucket_of(less, b1[bucket as int][0]) == bucket);
                } else {
                    assert(p - p % (BLOCK_SIZE as int) < w);
                }
            }
        }
        nw
    }

    /// Classifies all of `stripe` into `buckets`, writing full blocks back to
    /// the front of the stripe. Returns how many elements were written back:
    /// `stripe[..w]` is then made of whole blocks, each of one bucket, and the
    /// rest of the elements are in the buffers.
    pub fn classify_locally<L: Less<T>>(
        &self,
        less: &L,
        stripe: &mut [T],
        buckets: &mut BucketBuffers<T>,
    ) -> (w: usize)
        requires
            less.valid(),
            self.wf(less),
            old(buckets).view().len() == self.spec_num_buckets(),
        ensures
            w % BLOCK_SIZE == 0,
            w <= old(stripe)@.len(),
            final(stripe)@.len() == old(stripe)@.len(),
            buffers_classified(self, less, final(buckets).view()),
            blocks_uniform(self, less, final(stripe)@, w as int),
            final(stripe)@.subrange(0, w as int).to_multiset().add(
                sum_ms(final(buckets).view(), self.spec_num_buckets()),
            ) == old(stripe)@.to_multiset(),
    {
        broadcast use vstd::multiset::group_multiset_axioms;
        broadcast use group_to_multiset_ensures;

        let ghost k = self.spec_num_buckets();
        let ghost s0 = stripe@;
        buckets.clear_buckets();
        proof {
            crate::multiset_sum::lemma_sum_ms_empty(buckets.view(), k);
        }
        let n = stripe.len();
        let mut indices: Vec<usize> = Vec::new();
        let mut w: usize = 0;
        let mut i: usize = 0;
        proof {
            lemma_empty_seq_ms(stripe@.subrange(0, 0));
            assert(stripe@.subrange(0, n as int) =~= s0);
        }
        while i < n
            invariant
                less.valid(),
                self.wf(less),
                k == self.spec_num_buckets(),
                n == stripe@.len() == s0.len(),
                w <= i <= n,
                w % BLOCK_SIZE == 0,
                buffers_classified(self, less, buckets.view()),
                blocks_uniform(self, less, stripe@, w as int),
                sum_ms(buckets.view(), k).len() == i - w,
                stripe@.subrange(i as int, n as int) == s0.subrange(i as int, n as int),
                stripe@.subrange(0, w as int).to_multiset().add(sum_ms(buckets.view(), k)).add(
                    stripe@.subrange(i as int, n as int).to_multiset(),
                ) == s0.to_multiset(),
            decreases n - i,
        {
            let len = if n - i >= BATCH_SIZE {
                BATCH_SIZE
            } else {
                1
            };
            self.classify_batch(less, &stripe[i..i + len], &mut indices);
            let ghost s_batch = stripe@;
            let mut j: usize = 0;
            while j < len
                invariant
                    less.valid(),
                    self.wf(less),
                    k == self.spec_num_buckets(),
                    n == stripe@.len() == s0.len(),
                    i + len <= n,
                    j <= len,
                    indices@.len() == len,
                    forall|q: int|
                        0 <= q < len ==> #[trigger] indices@[q] == self.bucket_of(
                            less,
                            s_batch[i + q],
                        ),
                    w <= i + j,
                    w % BLOCK_SIZE == 0,
                    buffers_classified(self, less, buckets.view()),
                    blocks_uniform(self, less, stripe@, w as int),
                    sum_ms(buckets.view(), k).len() == i + j - w,
                    stripe@.subrange(i + j, n as int) == s_batch.subrange(i + j, n as int),
                    s_batch.subrange(i as int, n as int) == s0.subrange(i as int, n as int),
                    s_batch.len() == n,
                    stripe@.subrange(0, w as int).to_multiset().add(sum_ms(buckets.view(), k)).add(
                        stripe@.subrange(i + j, n as int).to_multiset(),
                    ) == s0.to_multiset(),
                decreases len - j,
            {
                let ghost s_before = stripe@;
                proof {
                    assert(s_before[i + j] == s_before.subrange(i + j, n as int)[0]);
                    assert(s_batch[i + j] == s_batch.subrange(i + j, n as int)[0]);
                }
                w = self.insert_into_bucket(less, stripe, buckets, i + j, indices[j], w);
                proof {
                    let a = s_before.subrange(i + j, n as int);
                    assert(a =~= seq![a[0]] + s_before.subrange(i + j + 1, n as int));
                    lemma_multiset_commutative(seq![a[0]], s_before.subrange(i + j + 1, n as int));
                    assert(seq![a[0]].to_multiset() =~= Multiset::empty().insert(a[0])) by {
                        assert(seq![a[0]] =~= Seq::<T>::empty().push(a[0]));
                        lemma_empty_seq_ms(Seq::<T>::empty());
                        to_multiset_build(Seq::<T>::empty(), a[0]);
                    }
                    assert(stripe@.subrange(i + j + 1, n as int) =~= s_before.subrange(
                        i + j + 1,
                        n as int,
                    ));
                    assert forall|q: int| 0 <= q < n - (i + j + 1) implies #[trigger] stripe@.subrange(
                        i + j + 1,
                        n as int,
                    )[q] == s_batch.subrange(i + j + 1, n as int)[q] by {
                        assert(stripe@.subrange(i + j + 1, n as int)[q] == s_before.subrange(
                            i + j + 1,
                            n as int,
                        )[q]);
                        assert(s_before.subrange(i + j, n as int)[q + 1] == s_batch.subrange(
                            i + j,
                            n as int,
                        )[q + 1]);
                    }
                    assert(stripe@.subrange(i + j + 1, n as int) =~= s_batch.subrange(
                        i + j + 1,
                        n as int,
                    ));
                    assert(stripe@.subrange(0, w as int).to_multiset().add(
                        sum_ms(buckets.view(), k),
                    ).add(stripe@.subrange(i + j + 1, n as int).to_multiset())
                        =~= s0.to_multiset());
                }
                j = j + 1;
            }
            i = i + len;
            proof {
                assert(stripe@.subrange(i as int, n as int) =~= s0.subrange(i as int, n as int)) by {
                    assert(stripe@.subrange(i as int, n as int) =~= s_batch.subrange(
                        i as int,
                        n as int,
                    ));
                    assert(s_batch.subrange(i as int, n as int) =~= s0.subrange(
                        i as int,
                        n as int,
                    )) by {
                        assert forall|q: int| 0 <= q < n - i implies s_batch.subrange(
                            i as int,
                            n as int,
                        )[q] == s0.subrange(i as int, n as int)[q] by {
                            assert(s_batch.subrange(i - len, n as int)[q + len] == s0.subrange(
                                i - len,
                                n as int,
                            )[q + len]);
                        }
                    }
                }
            }
        }
        proof {
            lemma_empty_seq_ms(stripe@.subrange(n as int, n as int));
            assert(stripe@.subrange(0, w as int).to_multiset().add(sum_ms(buckets.view(), k))
                =~= s0.to_multiset());
        }
        w
    }
}

} // verus!
