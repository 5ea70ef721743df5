use ips4o::analyze::{analyze, chunk_kind, chunk_stats, ChunkKind};
use ips4o::merge::{double_merge, quad_merge, triple_merge};
use ips4o::partition_friendly::{partition_friendly_sort, std_partitioning};
use ips4o::base_case::sort_simple_cases;
use ips4o::classifier::Classifier;
use ips4o::constants::oversampling_factor;
use ips4o::sequential::{get_splitters, recursion_plan, select_equidistant};
use ips4o::storage::{BucketBuffers, LocalStorage};
use ips4o::order::NaturalOrder;
use ips4o::{is_sorted_by, sort, sort_by, sort_by_key, sort_par};
use rand::distributions::Uniform;
use rand::rngs::StdRng;
use rand::seq::SliceRandom;
use rand::{Rng, SeedableRng};
use std::cmp::Ordering;

fn some_vec() -> Vec<i32> {
    vec![5, 5, 35, 7, 4, 4, 4, 7, 67, 7, 7, 6]
}

fn ascending<T: PartialOrd>(v: &[T]) -> bool {
    v.windows(2).all(|w| w[0] <= w[1])
}

fn sort_and_compare(mut input: Vec<u64>) {
    let mut expected = input.clone();
    expected.sort();
    sort(&mut input);
    assert!(input == expected, "result is not a sorted permutation of its input");
}

#[test]
fn simple_test1() {
    let mut input = some_vec();
    input.append(&mut some_vec());
    input.append(&mut some_vec());
    input.append(&mut some_vec());
    input.append(&mut some_vec());
    sort(&mut input);
    assert!(ascending(&input));
}

#[test]
fn simple_test2() {
    let mut input = [
        1, 9, 26, 29, 1, 2, 3, 4, 5, 6, 7, 8, 10, 11, 12, 13, 14, 15, 16, 17, 18, 19, 20, 21, 22,
        23, 24, 25, 27, 28,
    ];
    sort(&mut input);
    assert!(ascending(&input));
}

#[test]
fn simple_test3() {
    let mut input = [4, 4, 4, 4, 4, 4, 1, 2];
    sort(&mut input);
    assert!(ascending(&input));
}

#[test]
fn simple_test4() {
    let mut input = some_vec();
    input.append(&mut some_vec());
    sort(&mut input);
    assert!(ascending(&input));
}

/// The stream of `StdRng` (ChaCha12 seeded through PCG32, read through a
/// 64-word block buffer), with `gen_range` as rand 0.8 samples integers.
/// The fuzz inputs are drawn from it because rand's generator core runs
/// unoptimized in test builds, too slowly for thousands of inputs.
struct StdRngStream {
    key: [u32; 8],
    counter: u64,
    buf: [u32; 64],
    index: usize,
}

impl StdRngStream {
    fn seed_from_u64(mut state: u64) -> Self {
        let mut key = [0u32; 8];
        for word in key.iter_mut() {
            state = state
                .wrapping_mul(6364136223846793005)
                .wrapping_add(11634580027462260723);
            let xorshifted = (((state >> 18) ^ state) >> 27) as u32;
            let rot = (state >> 59) as u32;
            *word = xorshifted.rotate_right(rot);
        }
        StdRngStream { key, counter: 0, buf: [0; 64], index: 64 }
    }

    fn quarter(x: &mut [u32; 16], a: usize, b: usize, c: usize, d: usize) {
        x[a] = x[a].wrapping_add(x[b]);
        x[d] = (x[d] ^ x[a]).rotate_left(16);
        x[c] = x[c].wrapping_add(x[d]);
        x[b] = (x[b] ^ x[c]).rotate_left(12);
        x[a] = x[a].wrapping_add(x[b]);
        x[d] = (x[d] ^ x[a]).rotate_left(8);
        x[c] = x[c].wrapping_add(x[d]);
        x[b] = (x[b] ^ x[c]).rotate_left(7);
    }

    fn refill(&mut self) {
        for blk in 0..4 {
            let pos = self.counter.wrapping_add(blk as u64);
            let mut init = [0u32; 16];
            init[..4].copy_from_slice(&[0x6170_7865, 0x3320_646e, 0x7962_2d32, 0x6b20_6574]);
            init[4..12].copy_from_slice(&self.key);
            init[12] = pos as u32;
            init[13] = (pos >> 32) as u32;
            let mut x = init;
            for _ in 0..6 {
                Self::quarter(&mut x, 0, 4, 8, 12);
                Self::quarter(&mut x, 1, 5, 9, 13);
                Self::quarter(&mut x, 2, 6, 10, 14);
                Self::quarter(&mut x, 3, 7, 11, 15);
                Self::quarter(&mut x, 0, 5, 10, 15);
                Self::quarter(&mut x, 1, 6, 11, 12);
                Self::quarter(&mut x, 2, 7, 8, 13);
                Self::quarter(&mut x, 3, 4, 9, 14);
            }
            for i in 0..16 {
                self.buf[blk * 16 + i] = x[i].wrapping_add(init[i]);
            }
        }
        self.counter = self.counter.wrapping_add(4);
    }

    fn next_u64(&mut self) -> u64 {
        let len = 64;
        if self.index < len - 1 {
            let i = self.index;
            self.index += 2;
            (u64::from(self.buf[i + 1]) << 32) | u64::from(self.buf[i])
        } else if self.index >= len {
            self.refill();
            self.index = 2;
            (u64::from(self.buf[1]) << 32) | u64::from(self.buf[0])
        } else {
            let x = u64::from(self.buf[len - 1]);
            self.refill();
            self.index = 1;
            (u64::from(self.buf[0]) << 32) | x
        }
    }

    fn gen_range_u64(&mut self, low: u64, high: u64) -> u64 {
        assert!(low < high);
        let range = (high - 1).wrapping_sub(low).wrapping_add(1);
        if range == 0 {
            return self.next_u64();
        }
        let zone = (range << range.leading_zeros()).wrapping_sub(1);
        loop {
            let v = self.next_u64();
            let m = (v as u128) * (range as u128);
            let (hi, lo) = ((m >> 64) as u64, m as u64);
            if lo <= zone {
                return low.wrapping_add(hi);
            }
        }
    }
}

#[test]
fn fuzz() {
    let mut check = StdRng::seed_from_u64(0);
    let mut stream = StdRngStream::seed_from_u64(0);
    for i in 0..3000u64 {
        let (a, b) = (check.gen_range(0..10000usize), stream.gen_range_u64(0, 10000) as usize);
        assert_eq!(a, b);
        let hi = u64::MAX - i * 7919;
        assert_eq!(check.gen_range(i..hi), stream.gen_range_u64(i, hi));
    }
    let mut rng = StdRngStream::seed_from_u64(0);
    for _ in 0..5000 {
        let len = rng.gen_range_u64(0, 10000) as usize;
        let (a, b) = (
            rng.gen_range_u64(u64::MIN, u64::MAX),
            rng.gen_range_u64(u64::MIN, u64::MAX),
        );
        let (lower, upper) = (a.min(b), a.max(b));
        let input: Vec<_> = (0..len).map(|_| rng.gen_range_u64(lower, upper)).collect();
        sort_and_compare(input);
    }
}

#[test]
fn test_block_aligned_buckets() {
    let mut v = vec![];
    for i in 0..200 {
        v.append(&mut vec![i, i, i, i, i, i, i, i]);
    }
    let mut rng = StdRng::seed_from_u64(0);
    for _ in 0..1 {
        v.shuffle(&mut rng);
        sort(&mut v);
        assert!(ascending(&v));
    }
}

#[test]
fn big_test() {
    let len = 1usize << 20;
    let mut rng = StdRng::seed_from_u64(0);
    let range = Uniform::from(0..10_000);
    let mut v: Vec<u32> = (0..len).map(|_| rng.sample(&range)).collect();
    let mut sorted = v.clone();
    sorted.sort();
    sort(&mut v);
    assert!(ascending(&v));
    assert!(v == sorted);
}

#[test]
fn is_less_to_compare_orders() {
    let less = NaturalOrder;
    assert_eq!(ips4o::is_less_to_compare(&less, &1, &2), Ordering::Less);
    assert_eq!(ips4o::is_less_to_compare(&less, &2, &1), Ordering::Greater);
    assert_eq!(ips4o::is_less_to_compare(&less, &2, &2), Ordering::Equal);
}

#[test]
fn is_less_to_compare() {
    let less = NaturalOrder;
    let v = [1, 2, 3];
    assert!(is_sorted_by(&v, &less));
    let v = [1, 1, 1];
    assert!(is_sorted_by(&v, &less));
    let v = [3, 2, 1];
    assert!(!is_sorted_by(&v, &less));
}

#[test]
fn empty_input() {
    let mut v: Vec<i32> = vec![];
    sort(&mut v);
    assert_eq!(v, Vec::<i32>::new());
}

#[test]
fn scenario_duplicates() {
    let mut v = vec![5, 5, 35, 7, 4, 4, 4, 7, 67, 7, 7, 6];
    sort(&mut v);
    assert_eq!(v, vec![4, 4, 4, 5, 5, 6, 7, 7, 7, 7, 35, 67]);
}

#[test]
fn scenario_near_sorted() {
    let mut v = vec![
        1, 9, 26, 29, 1, 2, 3, 4, 5, 6, 7, 8, 10, 11, 12, 13, 14, 15, 16, 17, 18, 19, 20, 21, 22,
        23, 24, 25, 27, 28,
    ];
    sort(&mut v);
    let mut expected = vec![1];
    expected.extend(1..=29);
    assert_eq!(v, expected);
}

#[test]
fn scenario_few_values() {
    let mut v = vec![4, 4, 4, 4, 4, 4, 1, 2];
    sort(&mut v);
    assert_eq!(v, vec![1, 2, 4, 4, 4, 4, 4, 4]);
}

#[test]
fn scenario_eight_copies_each() {
    let mut v: Vec<u32> = Vec::new();
    for _ in 0..25 {
        for i in 0..200u32 {
            v.extend([i; 8]);
        }
    }
    let mut rng = StdRng::seed_from_u64(7);
    v.shuffle(&mut rng);
    sort(&mut v);
    for (i, chunk) in v.chunks(200).enumerate() {
        assert!(chunk.iter().all(|&x| x == i as u32));
    }
}

#[test]
fn sort_is_idempotent_on_values() {
    let mut rng = StdRng::seed_from_u64(3);
    let mut v: Vec<i64> = (0..5000).map(|_| rng.gen_range(-1000..1000)).collect();
    sort(&mut v);
    let once = v.clone();
    sort(&mut v);
    assert_eq!(v, once);
}

#[test]
fn distributions_are_sorted() {
    let mut rng = StdRng::seed_from_u64(11);
    for &len in &[0usize, 1, 16, 17, 511, 512, 513, 2047, 2048, 2049, 100_000] {
        let uniform: Vec<u64> = (0..len).map(|_| rng.gen()).collect();
        let equal = vec![42u64; len];
        let ascending_input: Vec<u64> = (0..len as u64).collect();
        let descending: Vec<u64> = (0..len as u64).rev().collect();
        let dupes: Vec<u64> = (0..len).map(|_| rng.gen_range(0..4)).collect();
        for input in [uniform, equal, ascending_input, descending, dupes] {
            sort_and_compare(input);
        }
    }
}

#[test]
fn sort_by_descending() {
    let mut v = vec![3, 1, 4, 1, 5, 9, 2, 6, 5, 3, 5];
    sort_by(&mut v, |a: &i32, b: &i32| b.cmp(a));
    assert_eq!(v, vec![9, 6, 5, 5, 5, 4, 3, 3, 2, 1, 1]);
}

#[test]
fn sort_by_key_abs() {
    let mut v: Vec<i32> = (-300..300).collect();
    sort_by_key(&mut v, |x: &i32| x.abs());
    assert!(v.windows(2).all(|w| w[0].abs() <= w[1].abs()));
    assert_eq!(v[0], 0);
}

#[test]
fn sort_par_large() {
    let mut rng = StdRng::seed_from_u64(5);
    let mut v: Vec<u64> = (0..300_000).map(|_| rng.gen_range(0..1_000_000)).collect();
    let mut expected = v.clone();
    expected.sort();
    sort_par(&mut v);
    assert_eq!(v, expected);
}

#[test]
fn merges_of_sorted_runs() {
    let less = NaturalOrder;
    let mut scratch = Vec::new();
    let mut v = vec![1, 4, 7, 9, 2, 3, 8, 10, 11];
    double_merge(&mut v, 4, &mut scratch, &less);
    assert_eq!(v, vec![1, 2, 3, 4, 7, 8, 9, 10, 11]);
    let mut v = vec![5, 6, 1, 9, 0, 2, 3];
    triple_merge(&mut v, 2, 2, &mut scratch, &less);
    assert_eq!(v, vec![0, 1, 2, 3, 5, 6, 9]);
    let mut v = vec![3, 8, 1, 2, 0, 7, 4, 4, 9];
    quad_merge(&mut v, 2, 2, 2, &mut scratch, &less);
    assert_eq!(v, vec![0, 1, 2, 3, 4, 4, 7, 8, 9]);
}

#[test]
fn analyze_sorts_structured_inputs() {
    let less = NaturalOrder;
    let mut ls = LocalStorage::new();
    let mut rng = StdRng::seed_from_u64(9);
    let n = 20_000usize;
    let ascending_input: Vec<u64> = (0..n as u64).collect();
    let descending: Vec<u64> = (0..n as u64).rev().collect();
    let mut near = ascending_input.clone();
    for _ in 0..141 {
        let (a, b) = (rng.gen_range(0..n), rng.gen_range(0..n));
        near.swap(a, b);
    }
    let random: Vec<u64> = (0..n).map(|_| rng.gen_range(0..1000)).collect();
    let mut mixed: Vec<u64> = Vec::new();
    for c in 0..8u64 {
        let chunk: Vec<u64> = (0..2500u64).map(|i| c * 1000 + i % 1000).collect();
        if c % 2 == 0 {
            mixed.extend(chunk.iter().rev());
        } else {
            mixed.extend(chunk);
        }
    }
    for mut v in [ascending_input, descending, near, random, mixed, vec![3, 1, 2], vec![]] {
        let mut expected = v.clone();
        expected.sort();
        analyze(&mut v, &mut ls, &less);
        assert_eq!(v, expected);
    }
}

#[test]
fn chunk_statistics_and_kinds() {
    let less = NaturalOrder;
    let v = [1, 2, 3, 4, 9, 8, 7, 6];
    assert_eq!(chunk_stats(&v, 0, 4, &less).0, 0);
    assert_eq!(chunk_stats(&v, 4, 8, &less).0, 3);
    assert_eq!(chunk_stats(&v, 2, 6, &less).0, 1);
    assert_eq!(chunk_kind(0, 0, 99, 5, 10), ChunkKind::Sorted);
    assert_eq!(chunk_kind(99, 0, 99, 5, 10), ChunkKind::Reversed);
    assert_eq!(chunk_kind(40, 6, 99, 5, 10), ChunkKind::MergeFriendly);
    assert_eq!(chunk_kind(3, 0, 99, 5, 10), ChunkKind::PartitionFriendly);
    assert_eq!(chunk_kind(95, 0, 99, 5, 10), ChunkKind::PartitionFriendly);
    assert_eq!(chunk_kind(40, 0, 99, 5, 10), ChunkKind::Unsorted);
}

#[test]
fn partitioning_around_median_of_three() {
    let less = NaturalOrder;
    let mut v = vec![9, 3, 7, 1, 5, 8, 2, 6, 4];
    let mid = std_partitioning(&mut v, &less);
    // median of 9, 5 and 4 is 5
    assert_eq!(v[mid], 5);
    assert_eq!(mid, 4);
    assert!(v[..mid].iter().all(|&x| x < 5));
    assert!(v[mid + 1..].iter().all(|&x| x >= 5));
    let mut w: Vec<u32> = (0..3000).map(|i| if i % 10 == 0 { 3000 - i } else { i }).collect();
    let mut expected = w.clone();
    expected.sort();
    let mut ls = LocalStorage::new();
    partition_friendly_sort(&mut w, &mut ls, &less);
    assert_eq!(w, expected);
}

#[test]
fn classifier_buckets_by_splitters() {
    let less = NaturalOrder;
    let mut c: Classifier<i32> = Classifier::new();
    c.get_all_splitters_mut().extend([10, 20, 30, 30]);
    c.set_splitter_len(4);
    c.build(&less);
    assert_eq!(c.get_splitters(), &[10, 20, 30, 30]);
    // an element equal to a splitter goes to the bucket below it
    let expect = [(5, 0), (10, 0), (11, 1), (20, 1), (25, 2), (30, 2), (31, 3), (1000, 3)];
    for (x, b) in expect {
        assert_eq!(c.classify_single_element(&less, &x), b);
    }
    let batch = [5, 10, 11, 20, 25, 30, 31, 1000];
    let mut out = Vec::new();
    c.classify_batch(&less, &batch, &mut out);
    assert_eq!(out, vec![0, 0, 1, 1, 2, 2, 3, 3]);
    c.equal_buckets = true;
    let expect_eq = [(5, 0), (10, 1), (11, 2), (20, 3), (25, 4), (30, 5), (31, 7), (1000, 7)];
    for (x, b) in expect_eq {
        assert_eq!(c.classify_single_element(&less, &x), b);
    }
}

#[test]
fn bucket_buffers_push_and_len() {
    let mut bufs: BucketBuffers<u8> = BucketBuffers::new(4);
    bufs.push(2, 7);
    bufs.push(2, 9);
    bufs.push(0, 1);
    assert_eq!(bufs.len(2), 2);
    assert_eq!(bufs.len(0), 1);
    assert_eq!(bufs.len(3), 0);
    assert_eq!(bufs.get(2), &[7, 9]);
    bufs.clear(2);
    assert_eq!(bufs.len(2), 0);
    bufs.clear_buckets();
    assert_eq!(bufs.len(0), 0);
}

#[test]
fn oversampling_rounds_up() {
    assert_eq!(oversampling_factor(1), 1);
    assert_eq!(oversampling_factor(16), 1);
    assert_eq!(oversampling_factor(17), 2);
    assert_eq!(oversampling_factor(32), 2);
    assert_eq!(oversampling_factor(256), 2);
    assert_eq!(oversampling_factor(257), 3);
    assert_eq!(oversampling_factor(65536), 4);
    assert_eq!(oversampling_factor(65537), 5);
    assert_eq!(oversampling_factor(usize::MAX), 16);
}

#[test]
fn equidistant_sample_positions() {
    let mut v: Vec<u32> = (0..10).collect();
    select_equidistant(&mut v, 4);
    // positions i * 10 / 4 = 0, 2, 5, 7
    assert_eq!(&v[..4], &[0, 2, 5, 7]);
    let mut sorted_all = v.clone();
    sorted_all.sort();
    assert_eq!(sorted_all, (0..10).collect::<Vec<u32>>());
}

#[test]
fn splitters_from_sample() {
    let less = NaturalOrder;
    let sample = [1, 2, 2, 2, 3, 3, 4, 5, 6, 7, 8, 9, 9, 9, 9, 9];
    let mut c: Classifier<i32> = Classifier::new();
    // step 2, 8 buckets: candidates at 1, 3, 5, 7, 9, 11, 13 = 2, 2, 3, 5, 7, 9, 9
    let count = get_splitters(&sample, 16, 2, 8, &mut c, &less);
    assert_eq!(count, 5);
    assert_eq!(c.get_splitters(), &[2, 3, 5, 7, 9, 9, 9, 9]);
    assert!(!c.equal_buckets);
    let flat = [4; 40];
    let mut c2: Classifier<i32> = Classifier::new();
    let count2 = get_splitters(&flat, 40, 2, 16, &mut c2, &less);
    assert_eq!(count2, 1);
    assert_eq!(c2.get_splitters(), &[4, 4]);
    assert!(c2.equal_buckets);
}

#[test]
fn plan_of_buckets() {
    let bounds = vec![0usize, 10, 100, 100, 1000, 1040, 5000];
    let plan = recursion_plan(&bounds, 5000, 4, false);
    assert_eq!(
        plan,
        vec![(10, 100, false), (100, 1000, false), (1000, 1040, false), (1040, 5000, true)]
    );
    let plan_eq = recursion_plan(&bounds, 5000, 4, true);
    assert_eq!(plan_eq, vec![(1000, 1040, false), (1040, 5000, true)]);
}

#[test]
fn simple_cases_reverse_exactly() {
    let less = NaturalOrder;
    let mut v = vec![5, 4, 4, 1];
    assert!(sort_simple_cases(&mut v, &less));
    assert_eq!(v, vec![1, 4, 4, 5]);
    let mut w = vec![2, 9, 1];
    assert!(!sort_simple_cases(&mut w, &less));
    assert_eq!(w, vec![2, 9, 1]);
}

#[test]
fn chunk_streaks_are_counted() {
    let less = NaturalOrder;
    // 65 elements: 64 pairs = two full windows; the first in order, the
    // second mixed
    let mut v: Vec<i32> = (0..33).collect();
    v.extend((0..32).map(|i| if i % 2 == 0 { 100 + i } else { 50 }));
    let (inversions, streaks) = chunk_stats(&v, 0, v.len(), &less);
    assert_eq!(streaks, 1);
    assert_eq!(inversions, 1 + 15);
}

#[test]
fn analyze_keeps_sorted_input() {
    let less = ips4o::order::ByKey { key: |x: &(u32, u32)| x.0 };
    let mut ls = LocalStorage::new();
    let v: Vec<(u32, u32)> = (0..1000u32).map(|i| (i / 10, 999 - i)).collect();
    let mut w = v.clone();
    analyze(&mut w, &mut ls, &less);
    assert_eq!(w, v);
}
