use vstd::prelude::*;

verus! {

pub const LOG_MAX_BUCKETS: usize = 7;

pub const BASE_CASE_SIZE: usize = 16;

pub const SINGLE_LEVEL_THRESHOLD: usize = 2048;

pub const TWO_LEVEL_THRESHOLD: usize = 262144;

/// Floor of the base-2 logarithm.
pub open spec fn spec_log2(n: nat) -> nat
    decreases n,
{
    if n <= 1 { 0 } else { 1 + spec_log2(n / 2) }
}

proof fn lemma_log2_le(x: nat)
    ensures
        spec_log2(x) <= x,
    decreases x,
{
    if x > 1 {
        lemma_log2_le(x / 2);
    }
}

pub proof fn lemma_log2_lt(x: nat, e: nat)
    requires
        1 <= x < exp2(e),
    ensures
        spec_log2(x) < e,
    decreases x,
{
    if x > 1 {
        assert(e > 0);
        lemma_log2_lt(x / 2, (e - 1) as nat);
    }
}

/// Floor of the base-2 logarithm of a positive number.
pub fn ilog2(n: usize) -> (r: usize)
    requires
        n >= 1,
    ensures
        r as nat == spec_log2(n as nat),
        r < 64,
{
    proof {
        lemma_log2_le(n as nat);
        reveal_with_fuel(exp2, 65);
        assert(exp2(64) == 0x1_0000_0000_0000_0000nat);
        lemma_log2_lt(n as nat, 64);
    }
    let mut m: usize = n;
    let mut r: usize = 0;
    while m > 1
        invariant
            m >= 1,
            r + spec_log2(m as nat) == spec_log2(n as nat),
            spec_log2(n as nat) <= n,
        decreases m,
    {
        m = m / 2;
        r = r + 1;
    }
    r
}

} // verus!

verus! {

/// Two to the power `e`.
pub open spec fn exp2(e: nat) -> nat
    decreases e,
{
    if e == 0 {
        1
    } else {
        2 * exp2((e - 1) as nat)
    }
}

pub proof fn lemma_exp2_values()
    ensures
        exp2(0) == 1,
        exp2(1) == 2,
        exp2(2) == 4,
        exp2(3) == 8,
        exp2(4) == 16,
        exp2(5) == 32,
        exp2(6) == 64,
        exp2(7) == 128,
        exp2(8) == 256,
{
    reveal_with_fuel(exp2, 9);
}

} // verus!

verus! {

/// Elements per block: the unit in which classified elements are written back.
pub const BLOCK_SIZE: usize = 512;

/// Equal buckets are used when the distinct splitters fall short of the
/// number of splitter slots by at least this many.
pub const EQUAL_BUCKET_THRESHOLD: usize = 5;

/// Inputs of at most this many elements are sorted by the base case.
pub const BASE_CASE_MULTIPLIER: usize = 8;

} // verus!

verus! {

/// Largest number of elements in a bucket that is sorted by the base case.
pub const BUCKET_BASE_CASE: usize = 32;

/// `exp2(log2(x))` is the largest power of two not above `x`.
pub proof fn lemma_log2_exp2_bounds(x: nat)
    requires
        x >= 1,
    ensures
        exp2(spec_log2(x)) <= x < exp2(spec_log2(x) + 1),
    decreases x,
{
    if x > 1 {
        lemma_log2_exp2_bounds(x / 2);
        assert(exp2(spec_log2(x)) == 2 * exp2(spec_log2(x / 2)));
        assert(exp2(spec_log2(x) + 1) == 2 * exp2(spec_log2(x)));
    } else {
        assert(exp2(1) == 2) by {
            reveal_with_fuel(exp2, 2);
        }
    }
}

pub proof fn lemma_exp2_le(a: nat, b: nat)
    requires
        a <= b,
    ensures
        exp2(a) <= exp2(b),
    decreases b,
{
    if a < b {
        lemma_exp2_le(a, (b - 1) as nat);
    }
}

/// Two to the power `e`.
pub fn pow2(e: usize) -> (r: usize)
    requires
        e <= 8,
    ensures
        r == exp2(e as nat),
{
    proof {
        lemma_exp2_values();
    }
    let mut r: usize = 1;
    let mut i: usize = 0;
    while i < e
        invariant
            i <= e <= 8,
            r == exp2(i as nat),
            r <= 256,
        decreases e - i,
    {
        proof {
            lemma_exp2_values();
            lemma_exp2_le((i + 1) as nat, 8);
            assert(exp2((i + 1) as nat) == 2 * exp2(i as nat));
        }
        r = r * 2;
        i = i + 1;
    }
    r
}

/// Number of levels of the splitter tree for `n` elements (see `log_buckets`).
pub open spec fn spec_log_buckets(n: int) -> int {
    if n <= SINGLE_LEVEL_THRESHOLD {
        if spec_log2((n / BASE_CASE_SIZE as int) as nat) >= 1 {
            spec_log2((n / BASE_CASE_SIZE as int) as nat) as int
        } else {
            1
        }
    } else if n <= TWO_LEVEL_THRESHOLD {
        if (spec_log2((n / BASE_CASE_SIZE as int) as nat) + 1) / 2 >= 1 {
            ((spec_log2((n / BASE_CASE_SIZE as int) as nat) + 1) / 2) as int
        } else {
            1
        }
    } else {
        LOG_MAX_BUCKETS as int
    }
}

/// Number of levels of the splitter tree to use for `n` elements: as many
/// as make the buckets of the base case size, in one level for small inputs
/// and in two levels for medium ones; the maximum for large ones.
pub fn log_buckets(n: usize) -> (r: usize)
    requires
        n >= BASE_CASE_SIZE,
    ensures
        1 <= r <= LOG_MAX_BUCKETS,
        n <= SINGLE_LEVEL_THRESHOLD ==> r == if spec_log2((n / BASE_CASE_SIZE) as nat) >= 1 {
            spec_log2((n / BASE_CASE_SIZE) as nat) as int
        } else {
            1
        },
        SINGLE_LEVEL_THRESHOLD < n <= TWO_LEVEL_THRESHOLD ==> r == if (spec_log2(
            (n / BASE_CASE_SIZE) as nat,
        ) + 1) / 2 >= 1 {
            ((spec_log2((n / BASE_CASE_SIZE) as nat) + 1) / 2) as int
        } else {
            1
        },
        n > TWO_LEVEL_THRESHOLD ==> r == LOG_MAX_BUCKETS,
        r == spec_log_buckets(n as int),
{
    proof {
        lemma_exp2_values();
        reveal_with_fuel(exp2, 16);
    }
    if n <= SINGLE_LEVEL_THRESHOLD {
        let res = ilog2(n / BASE_CASE_SIZE);
        proof {
            lemma_log2_lt((n / BASE_CASE_SIZE) as nat, 8);
        }
        if res >= 1 {
            res
        } else {
            1
        }
    } else if n <= TWO_LEVEL_THRESHOLD {
        let res = (ilog2(n / BASE_CASE_SIZE) + 1) / 2;
        proof {
            lemma_log2_lt((n / BASE_CASE_SIZE) as nat, 15);
        }
        if res >= 1 {
            res
        } else {
            1
        }
    } else {
        LOG_MAX_BUCKETS
    }
}

proof fn lemma_exp2_step4(e: nat)
    ensures
        exp2(e + 4) == 16 * exp2(e),
{
    reveal_with_fuel(exp2, 5);
}

/// The least `r` from `from` up to 16 with `n <= 2^(4r)`, or 16.
pub open spec fn least_oversampling(n: int, from: nat) -> nat
    decreases 16 - from,
{
    if from >= 16 || n <= exp2(4 * from) {
        from
    } else {
        least_oversampling(n, from + 1)
    }
}

/// Sample elements per bucket for `n` elements (see `oversampling_factor`).
pub open spec fn spec_oversampling(n: int) -> nat {
    least_oversampling(n, 1)
}

/// Sample elements per bucket: a quarter of the base-2 logarithm of `n`,
/// rounded up, at least one. That is the least `r >= 1` with
/// `n <= 2^(4r)`.
pub fn oversampling_factor(n: usize) -> (r: usize)
    requires
        n >= 1,
    ensures
        1 <= r <= 16,
        n <= exp2(4 * r as nat),
        r == 1 || exp2(4 * (r - 1) as nat) < n,
        r == spec_oversampling(n as int),
{
    proof {
        reveal_with_fuel(exp2, 65);
        assert(exp2(64) == 0x1_0000_0000_0000_0000nat);
        lemma_exp2_values();
    }
    let mut r: usize = 1;
    let mut p: u128 = 16;
    while p < n as u128
        invariant
            1 <= r <= 16,
            p == exp2(4 * r as nat),
            r == 1 || exp2(4 * (r - 1) as nat) < n,
            exp2(64) == 0x1_0000_0000_0000_0000nat,
            least_oversampling(n as int, r as nat) == spec_oversampling(n as int),
        decreases 16 - r,
    {
        proof {
            if r >= 16 {
                lemma_exp2_le(64, 4 * r as nat);
            }
            lemma_exp2_step4(4 * r as nat);
            assert(4 * (r + 1) as nat == 4 * r as nat + 4);
        }
        p = p * 16;
        r = r + 1;
    }
    r
}

} // verus!
