//! Storage that the sort reuses across recursion levels: per-bucket buffers
//! that collect classified elements until a block is full, the classifier,
//! scratch space and the random source for sampling.
use crate::classifier::Classifier;
use rand::Rng;
use rand::SeedableRng;
use vstd::prelude::*;

verus! {

/// One buffer per bucket, each holding at most one block of elements.
pub struct BucketBuffers<T> {
    buckets: Vec<Vec<T>>,
}

impl<T: Copy> BucketBuffers<T> {
    /// The contents of each buffer.
    pub closed spec fn view(&self) -> Seq<Seq<T>> {
        Seq::new(self.buckets@.len(), |i: int| self.buckets@[i]@)
    }

    /// `num_buckets` empty buffers.
    pub fn new(num_buckets: usize) -> (r: Self)
        ensures
            r.view().len() == num_buckets,
            forall|i: int| 0 <= i < num_buckets ==> #[trigger] r.view()[i].len() == 0,
    {
        let mut buckets: Vec<Vec<T>> = Vec::new();
        let mut i: usize = 0;
        while i < num_buckets
            invariant
                i <= num_buckets,
                buckets@.len() == i,
                forall|j: int| 0 <= j < i ==> #[trigger] buckets@[j]@.len() == 0,
            decreases num_buckets - i,
        {
            buckets.push(Vec::new());
            i = i + 1;
        }
        BucketBuffers { buckets }
    }

    /// Empties every buffer.
    pub fn clear_buckets(&mut self)
        ensures
            final(self).view().len() == old(self).view().len(),
            forall|i: int|
                0 <= i < final(self).view().len() ==> #[trigger] final(self).view()[i].len() == 0,
    {
        let n = self.buckets.len();
        let mut i: usize = 0;
        while i < n
            invariant
                i <= n == self.buckets@.len(),
                forall|j: int| 0 <= j < i ==> #[trigger] self.buckets@[j]@.len() == 0,
            decreases n - i,
        {
            self.buckets[i].clear();
            i = i + 1;
        }
    }

    /// Appends `elem` to buffer `index`.
    pub fn push(&mut self, index: usize, elem: T)
        requires
            index < old(self).view().len(),
        ensures
            final(self).view() == old(self).view().update(
                index as int,
                old(self).view()[index as int].push(elem),
            ),
    {
        self.buckets[index].push(elem);
        assert(self.view() =~= old(self).view().update(
            index as int,
            old(self).view()[index as int].push(elem),
        ));
    }

    /// Number of elements in buffer `index`.
    pub fn len(&self, index: usize) -> (r: usize)
        requires
            index < self.view().len(),
        ensures
            r == self.view()[index as int].len(),
    {
        self.buckets[index].len()
    }

    /// The contents of buffer `index`.
    pub fn get(&self, index: usize) -> (r: &[T])
        requires
            index < self.view().len(),
        ensures
            r@ == self.view()[index as int],
    {
        self.buckets[index].as_slice()
    }

    /// Empties buffer `index`.
    pub fn clear(&mut self, index: usize)
        requires
            index < old(self).view().len(),
        ensures
            final(self).view() == old(self).view().update(index as int, Seq::empty()),
    {
        self.buckets[index].clear();
        assert(self.view() =~= old(self).view().update(index as int, Seq::empty()));
    }
}

#[verifier::external_type_specification]
#[verifier::external_body]
pub struct ExStdRng(rand::rngs::StdRng);

/// Relies on rand's `SeedableRng::seed_from_u64`: a generator whose output
/// is fixed by the seed.
#[verifier::external_body]
fn seeded_std_rng(seed: u64) -> rand::rngs::StdRng {
    rand::rngs::StdRng::seed_from_u64(seed)
}

/// Relies on rand's `Rng::gen_range`: a value of the half-open range
/// `lo..hi`, which must not be empty.
#[verifier::external_body]
fn std_rng_gen_range(rng: &mut rand::rngs::StdRng, lo: usize, hi: usize) -> (r: usize)
    requires
        lo < hi,
    ensures
        lo <= r < hi,
{
    rng.gen_range(lo..hi)
}

/// The pseudorandom source used to draw samples, seeded with a fixed value.
pub struct Ips4oRng {
    rng: rand::rngs::StdRng,
}

impl Ips4oRng {
    pub fn new() -> Self {
        Ips4oRng { rng: seeded_std_rng(0) }
    }

    /// A pseudorandom index in `lo..hi`.
    pub fn gen_index(&mut self, lo: usize, hi: usize) -> (r: usize)
        requires
            lo < hi,
        ensures
            lo <= r < hi,
    {
        std_rng_gen_range(&mut self.rng, lo, hi)
    }
}

/// Everything one sequential worker needs, allocated once per sort.
pub struct LocalStorage<T> {
    pub classifier: Classifier<T>,
    pub scratch: Vec<T>,
    pub rng: Ips4oRng,
}

impl<T: Copy> LocalStorage<T> {
    pub fn new() -> Self {
        LocalStorage { classifier: Classifier::new(), scratch: Vec::new(), rng: Ips4oRng::new() }
    }
}

} // verus!
