//! The branchless splitter tree: builds an implicit binary search tree over
//! the sorted splitters and maps each element to its bucket.
use crate::constants::{exp2, ilog2, lemma_exp2_le, lemma_exp2_values, spec_log2, LOG_MAX_BUCKETS};
use crate::order::{sorted_by, Less};
use vstd::prelude::*;

verus! {

/// Number of elements classified together by `classify_batch`.
pub const BATCH_SIZE: usize = 6;

/// Number of splitter slots that node `b` of a tree over `k` slots covers.
pub open spec fn node_sz(b: int, k: int) -> int
    decreases b,
{
    if b <= 1 {
        k
    } else {
        node_sz(b / 2, k) / 2
    }
}

/// First splitter slot that node `b` of a tree over `k` slots covers.
pub open spec fn node_lo(b: int, k: int) -> int
    decreases b,
{
    if b <= 1 {
        0
    } else {
        node_lo(b / 2, k) + if b % 2 == 1 {
            node_sz(b / 2, k) / 2
        } else {
            0
        }
    }
}

/// Node `b` of the tree holds the median splitter of the slots it covers.
pub open spec fn tree_ok<T>(tree: Seq<T>, s: Seq<T>, k: int) -> bool {
    forall|b: int|
        1 <= b < k && node_sz(b, k) >= 2 ==> #[trigger] tree[b] == s[node_lo(b, k) + node_sz(b, k)
            / 2 - 1]
}

/// Node reached from the root after `t` comparisons of `x` against the tree.
pub open spec fn path<T, L: Less<T>>(less: &L, tree: Seq<T>, x: T, t: nat) -> int
    decreases t,
{
    if t == 0 {
        1
    } else {
        let b = path(less, tree, x, (t - 1) as nat);
        2 * b + if less.rank(tree[b]) < less.rank(x) {
            1int
        } else {
            0
        }
    }
}

proof fn lemma_node_bounds(b: int, k: int, m: nat)
    requires
        1 <= b,
        k == exp2(m),
    ensures
        0 <= node_lo(b, k),
        0 <= node_sz(b, k),
        node_lo(b, k) + node_sz(b, k) <= k,
    decreases b,
{
    if b > 1 {
        lemma_node_bounds(b / 2, k, m);
        if b % 2 == 1 {
            assert(node_lo(b, k) == node_lo(b / 2, k) + node_sz(b / 2, k) / 2);
        } else {
            assert(node_lo(b, k) == node_lo(b / 2, k));
        }
    }
}

pub struct Classifier<T> {
    pub tree: Vec<T>,
    pub splitters: Vec<T>,
    pub splitter_len: usize,
    pub log_buckets: usize,
    pub equal_buckets: bool,
}

impl<T: Copy> Classifier<T> {
    pub open spec fn spec_splitters(&self) -> Seq<T> {
        self.splitters@
    }

    pub open spec fn spec_splitter_len(&self) -> int {
        self.splitter_len as int
    }

    /// Number of buckets, counting the equal buckets.
    pub open spec fn spec_num_buckets(&self) -> int {
        if self.equal_buckets {
            2 * self.splitter_len
        } else {
            self.splitter_len as int
        }
    }

    /// The splitter count is a power of two no larger than the maximum, the
    /// splitters ascend, and the tree is built over them.
    pub open spec fn wf<L: Less<T>>(&self, less: &L) -> bool {
        &&& 1 <= self.log_buckets <= LOG_MAX_BUCKETS
        &&& self.splitter_len == exp2(self.log_buckets as nat)
        &&& self.splitter_len <= 128
        &&& self.splitters@.len() == self.splitter_len
        &&& self.tree@.len() == self.splitter_len
        &&& sorted_by(less, self.splitters@)
        &&& tree_ok(self.tree@, self.splitters@, self.splitter_len as int)
    }

    /// The bucket of `x`.
    pub open spec fn bucket_of<L: Less<T>>(&self, less: &L, x: T) -> int {
        let k = self.splitter_len as int;
        let b = path(less, self.tree@, x, self.log_buckets as nat);
        if self.equal_buckets {
            2 * b + (if less.rank(x) < less.rank(self.splitters@[b - k]) {
                0int
            } else {
                1
            }) - 2 * k
        } else {
            b - k
        }
    }

    /// An empty classifier.
    pub fn new() -> (r: Self)
        ensures
            r.spec_splitters().len() == 0,
            r.spec_splitter_len() == 0,
            !r.equal_buckets,
    {
        Classifier {
            tree: Vec::new(),
            splitters: Vec::new(),
            splitter_len: 0,
            log_buckets: 0,
            equal_buckets: false,
        }
    }

    /// The splitters in use.
    pub fn get_splitters(&self) -> (r: &[T])
        ensures
            r@ == self.spec_splitters(),
    {
        self.splitters.as_slice()
    }

    /// The splitter storage, to be filled before `build`.
    pub fn get_all_splitters_mut(&mut self) -> (r: &mut Vec<T>)
        ensures
            *r == old(self).splitters,
            final(self).splitters == *final(r),
            final(self).tree == old(self).tree,
            final(self).splitter_len == old(self).splitter_len,
            final(self).log_buckets == old(self).log_buckets,
            final(self).equal_buckets == old(self).equal_buckets,
    {
        &mut self.splitters
    }

    /// Sets the number of splitter slots in use.
    pub fn set_splitter_len(&mut self, splitter_len: usize)
        ensures
            final(self).splitter_len == splitter_len,
            final(self).splitters == old(self).splitters,
            final(self).tree == old(self).tree,
            final(self).log_buckets == old(self).log_buckets,
            final(self).equal_buckets == old(self).equal_buckets,
    {
        self.splitter_len = splitter_len;
    }

    /// Builds the tree over the splitters; their number must be a power of two
    /// between 2 and the maximum, and they must ascend.
    pub fn build<L: Less<T>>(&mut self, less: &L)
        requires
            old(self).splitters@.len() == old(self).splitter_len,
            exists|m: nat| 1 <= m <= LOG_MAX_BUCKETS && old(self).splitter_len == exp2(m),
            sorted_by(less, old(self).splitters@),
        ensures
            final(self).wf(less),
            final(self).splitters == old(self).splitters,
            final(self).splitter_len == old(self).splitter_len,
            final(self).equal_buckets == old(self).equal_buckets,
    {
        let k = self.splitter_len;
        let ghost m = choose|m: nat| 1 <= m <= LOG_MAX_BUCKETS && k == exp2(m);
        proof {
            lemma_exp2_values();
            lemma_log2_exp2(m);
            lemma_exp2_le(m, 7);
        }
        let log = ilog2(k);
        let mut tree: Vec<T> = Vec::new();
        tree.push(self.splitters[0]);
        let mut b: usize = 1;
        while b < k
            invariant
                1 <= b <= k,
                k == exp2(m),
                k <= 128,
                k == self.splitters@.len(),
                tree@.len() == b,
                forall|c: int|
                    1 <= c < b && node_sz(c, k as int) >= 2 ==> #[trigger] tree@[c]
                        == self.splitters@[node_lo(c, k as int) + node_sz(c, k as int) / 2 - 1],
            decreases k - b,
        {
            let (lo, sz) = node_range(b, k, Ghost(m));
            proof {
                lemma_node_bounds(b as int, k as int, m);
            }
            if sz >= 2 {
                tree.push(self.splitters[lo + sz / 2 - 1]);
            } else {
                tree.push(self.splitters[0]);
            }
            b = b + 1;
        }
        self.tree = tree;
        self.log_buckets = log;
    }

    /// Maps `val` to its bucket with one descent of the tree.
    pub fn classify_single_element<L: Less<T>>(&self, less: &L, val: &T) -> (r: usize)
        requires
            less.valid(),
            self.wf(less),
        ensures
            r == self.bucket_of(less, *val),
            r < self.spec_num_buckets(),
    {
        let k = self.splitter_len;
        let mut b: usize = 1;
        let mut t: usize = 0;
        while t < self.log_buckets
            invariant
                less.valid(),
                self.wf(less),
                k == self.splitter_len,
                t <= self.log_buckets,
                b == path(less, self.tree@, *val, t as nat),
            decreases self.log_buckets - t,
        {
            proof {
                self.lemma_path(less, *val, t as nat);
            }
            let c = less.is_less(&self.tree[b], val);
            b = 2 * b + if c {
                1
            } else {
                0
            };
            t = t + 1;
        }
        proof {
            self.lemma_path(less, *val, t as nat);
            lemma_exp2_values();
        }
        if self.equal_buckets {
            let is_equal = !less.is_less(val, &self.splitters[b - k]);
            2 * b + (if is_equal {
                1
            } else {
                0
            }) - 2 * k
        } else {
            b - k
        }
    }

    /// Classifies a batch of elements at once: the descents of all elements
    /// advance together, one tree level at a time.
    pub fn classify_batch<L: Less<T>>(&self, less: &L, v: &[T], idx: &mut Vec<usize>)
        requires
            less.valid(),
            self.wf(less),
        ensures
            final(idx)@.len() == v@.len(),
            forall|i: int|
                0 <= i < v@.len() ==> #[trigger] final(idx)@[i] == self.bucket_of(less, v@[i])
                    && final(idx)@[i] < self.spec_num_buckets(),
    {
        let n = v.len();
        let k = self.splitter_len;
        idx.clear();
        let mut i: usize = 0;
        while i < n
            invariant
                i <= n == v@.len(),
                idx@.len() == i,
                forall|j: int| 0 <= j < i ==> #[trigger] idx@[j] == 1,
            decreases n - i,
        {
            idx.push(1);
            i = i + 1;
        }
        let mut t: usize = 0;
        while t < self.log_buckets
            invariant
                less.valid(),
                self.wf(less),
                n == v@.len() == idx@.len(),
                t <= self.log_buckets,
                forall|j: int| 0 <= j < n ==> #[trigger] idx@[j] == path(less, self.tree@, v@[j], t as nat),
            decreases self.log_buckets - t,
        {
            let mut i: usize = 0;
            while i < n
                invariant
                    less.valid(),
                    self.wf(less),
                    n == v@.len() == idx@.len(),
                    t < self.log_buckets,
                    i <= n,
                    forall|j: int| 0 <= j < i ==> #[trigger] idx@[j] == path(less, self.tree@, v@[j], (t + 1) as nat),
                    forall|j: int| i <= j < n ==> #[trigger] idx@[j] == path(less, self.tree@, v@[j], t as nat),
                decreases n - i,
            {
                proof {
                    self.lemma_path(less, v@[i as int], t as nat);
                }
                let index = idx[i];
                let c = less.is_less(&self.tree[index], &v[i]);
                idx.set(i, 2 * index + if c {
                    1
                } else {
                    0
                });
                i = i + 1;
            }
            t = t + 1;
        }
        let mut i: usize = 0;
        while i < n
            invariant
                less.valid(),
                self.wf(less),
                k == self.splitter_len,
                n == v@.len() == idx@.len(),
                i <= n,
                forall|j: int| 0 <= j < i ==> #[trigger] idx@[j] == self.bucket_of(less, v@[j])
                    && idx@[j] < self.spec_num_buckets(),
                forall|j: int|
                    i <= j < n ==> #[trigger] idx@[j] == path(less, self.tree@, v@[j], self.log_buckets as nat),
            decreases n - i,
        {
            proof {
                self.lemma_path(less, v@[i as int], self.log_buckets as nat);
                lemma_exp2_values();
            }
            let b = idx[i];
            let r = if self.equal_buckets {
                let is_equal = !less.is_less(&v[i], &self.splitters[b - k]);
                2 * b + (if is_equal {
                    1
                } else {
                    0
                }) - 2 * k
            } else {
                b - k
            };
            idx.set(i, r);
            i = i + 1;
        }
    }

    /// After `t` steps the descent of `x` stands at a node whose slots
    /// bound `x` on both sides.
    proof fn lemma_path<L: Less<T>>(&self, less: &L, x: T, t: nat)
        requires
            self.wf(less),
            t <= self.log_buckets,
        ensures
            ({
                let k = self.splitter_len as int;
                let b = path(less, self.tree@, x, t);
                let lo = node_lo(b, k);
                let sz = node_sz(b, k);
                &&& 1 <= b
                &&& sz == exp2((self.log_buckets - t) as nat)
                &&& b * sz == k + lo
                &&& 0 <= lo
                &&& lo + sz <= k
                &&& t < self.log_buckets ==> b < k
                &&& t == self.log_buckets ==> k <= b < 2 * k
                &&& lo > 0 ==> less.rank(self.splitters@[lo - 1]) < less.rank(x)
                &&& lo + sz < k ==> less.rank(x) <= less.rank(self.splitters@[lo + sz - 1])
            }),
        decreases t,
    {
        let k = self.splitter_len as int;
        let m = self.log_buckets as nat;
        lemma_exp2_values();
        if t == 0 {
            assert(path(less, self.tree@, x, 0) == 1);
            assert(node_sz(1, k) == k);
            assert(node_lo(1, k) == 0);
        } else {
            self.lemma_path(less, x, (t - 1) as nat);
            let b0 = path(less, self.tree@, x, (t - 1) as nat);
            let lo0 = node_lo(b0, k);
            let sz0 = node_sz(b0, k);
            let e = exp2((m - t) as nat);
            assert(sz0 == 2 * e);
            assert(e >= 1) by {
                lemma_exp2_pos((m - t) as nat);
            }
            assert(b0 < k) by (nonlinear_arith)
                requires
                    b0 * sz0 == k + lo0,
                    lo0 + sz0 <= k,
                    sz0 >= 2,
                    lo0 >= 0,
            ;
            assert(self.tree@[b0] == self.splitters@[lo0 + sz0 / 2 - 1]);
            let c: int = if less.rank(self.tree@[b0]) < less.rank(x) {
                1
            } else {
                0
            };
            let b = 2 * b0 + c;
            assert(path(less, self.tree@, x, t) == b);
            assert(b / 2 == b0);
            assert(b % 2 == c);
            assert(node_sz(b, k) == e);
            if c == 1 {
                assert(node_lo(b, k) == lo0 + e);
                assert(b * e == k + lo0 + e) by (nonlinear_arith)
                    requires
                        b == 2 * b0 + 1,
                        b0 * (2 * e) == k + lo0,
                ;
                assert(less.rank(self.splitters@[lo0 + e - 1]) < less.rank(x));
            } else {
                assert(node_lo(b, k) == lo0);
                assert(b * e == k + lo0) by (nonlinear_arith)
                    requires
                        b == 2 * b0,
                        b0 * (2 * e) == k + lo0,
                ;
                assert(less.rank(x) <= less.rank(self.splitters@[lo0 + e - 1]));
            }
            let lo = node_lo(b, k);
            if t == m {
                assert(e == 1);
                assert(k <= b < 2 * k) by (nonlinear_arith)
                    requires
                        b * e == k + lo,
                        e == 1,
                        0 <= lo,
                        lo + e <= k,
                ;
            } else {
                assert(e >= 2) by {
                    lemma_exp2_ge2((m - t) as nat);
                }
                assert(b < k) by (nonlinear_arith)
                    requires
                        b * e == k + lo,
                        lo + e <= k,
                        e >= 2,
                        lo >= 0,
                ;
            }
        }
    }
}

/// Classifier correctness: without equal buckets, an element lands in bucket
/// `j` exactly when it is above splitter `j - 1` and at most splitter `j`
/// (splitters bound the buckets that they separate). With equal buckets,
/// bucket `2j + 1` holds the elements equal to splitter `j` (for the last
/// one: all from it up) and bucket `2j` those strictly between splitters
/// `j - 1` and `j`.
pub proof fn lemma_classify_bounds<T: Copy, L: Less<T>>(c: &Classifier<T>, less: &L, x: T)
    requires
        c.wf(less),
    ensures
        0 <= c.bucket_of(less, x) < c.spec_num_buckets(),
        !c.equal_buckets ==> {
            let j = c.bucket_of(less, x);
            &&& j > 0 ==> less.rank(c.splitters@[j - 1]) < less.rank(x)
            &&& j < c.splitter_len - 1 ==> less.rank(x) <= less.rank(c.splitters@[j])
        },
        c.equal_buckets ==> {
            let e = c.bucket_of(less, x);
            let j = e / 2;
            &&& j > 0 ==> less.rank(c.splitters@[j - 1]) < less.rank(x)
            &&& e % 2 == 0 ==> less.rank(x) < less.rank(c.splitters@[j])
            &&& e % 2 == 1 ==> less.rank(c.splitters@[j]) <= less.rank(x)
            &&& e % 2 == 1 && j < c.splitter_len - 1 ==> less.rank(x) == less.rank(
                c.splitters@[j],
            )
        },
{
    let k = c.splitter_len as int;
    c.lemma_path(less, x, c.log_buckets as nat);
    lemma_exp2_values();
    let b = path(less, c.tree@, x, c.log_buckets as nat);
    assert(node_sz(b, k) == 1) by {
        assert((c.log_buckets - c.log_buckets) as nat == 0);
    }
    assert(b == k + node_lo(b, k));
}

/// Buckets are ordered: an element of a lower bucket ranks strictly below an
/// element of a higher bucket.
pub proof fn lemma_bucket_order<T: Copy, L: Less<T>>(c: &Classifier<T>, less: &L, x: T, y: T)
    requires
        c.wf(less),
        c.bucket_of(less, x) < c.bucket_of(less, y),
    ensures
        less.rank(x) < less.rank(y),
{
    lemma_classify_bounds(c, less, x);
    lemma_classify_bounds(c, less, y);
    let ex = c.bucket_of(less, x);
    let ey = c.bucket_of(less, y);
    if c.equal_buckets {
        let jx = ex / 2;
        let jy = ey / 2;
        if jx < jy {
            assert(less.rank(c.splitters@[jx]) <= less.rank(c.splitters@[jy - 1]));
            if ex % 2 == 1 && jx == c.splitter_len - 1 {
                assert(false);
            }
        }
    } else {
        assert(less.rank(c.splitters@[ex]) <= less.rank(c.splitters@[ey - 1]));
    }
}

/// Elements of one odd bucket below the last, with equal buckets on, all rank
/// alike.
pub proof fn lemma_equal_bucket<T: Copy, L: Less<T>>(c: &Classifier<T>, less: &L, x: T, y: T)
    requires
        c.wf(less),
        c.equal_buckets,
        c.bucket_of(less, x) == c.bucket_of(less, y),
        c.bucket_of(less, x) % 2 == 1,
        c.bucket_of(less, x) < c.spec_num_buckets() - 1,
    ensures
        less.rank(x) == less.rank(y),
{
    lemma_classify_bounds(c, less, x);
    lemma_classify_bounds(c, less, y);
}

proof fn lemma_exp2_pos(e: nat)
    ensures
        exp2(e) >= 1,
    decreases e,
{
    if e > 0 {
        lemma_exp2_pos((e - 1) as nat);
    }
}

proof fn lemma_exp2_ge2(e: nat)
    requires
        e >= 1,
    ensures
        exp2(e) >= 2,
{
    lemma_exp2_pos((e - 1) as nat);
}

proof fn lemma_log2_exp2(m: nat)
    ensures
        spec_log2(exp2(m)) == m,
    decreases m,
{
    if m > 0 {
        lemma_log2_exp2((m - 1) as nat);
        lemma_exp2_pos((m - 1) as nat);
        assert(exp2(m) / 2 == exp2((m - 1) as nat));
    }
}

/// Slots covered by node `b` of the tree over `k` slots: first slot and count.
fn node_range(b: usize, k: usize, Ghost(m): Ghost<nat>) -> (r: (usize, usize))
    requires
        1 <= b,
        k == exp2(m),
        k <= 128,
    ensures
        r.0 == node_lo(b as int, k as int),
        r.1 == node_sz(b as int, k as int),
    decreases b,
{
    proof {
        lemma_node_bounds(b as int, k as int, m);
    }
    if b <= 1 {
        (0, k)
    } else {
        let (lo, sz) = node_range(b / 2, k, Ghost(m));
        proof {
            lemma_node_bounds((b / 2) as int, k as int, m);
        }
        if b % 2 == 1 {
            assert(node_lo(b as int, k as int) == lo + sz / 2);
            (lo + sz / 2, sz / 2)
        } else {
            assert(node_lo(b as int, k as int) == lo);
            (lo, sz / 2)
        }
    }
}

} // verus!
