use multimerge_pg::multimerge::{calcular_minrun, insertion_sort, ordenar_multi_merge_generic};
use std::cmp::Ordering;

/// A value compared by `key` alone, so that ties can be told apart by `tag`.
#[derive(Clone, Copy, Debug)]
struct Keyed {
    key: i32,
    tag: u32,
}

impl PartialEq for Keyed {
    fn eq(&self, other: &Self) -> bool {
        self.key == other.key
    }
}

impl Eq for Keyed {}

impl PartialOrd for Keyed {
    fn partial_cmp(&self, other: &Self) -> Option<Ordering> {
        Some(self.cmp(other))
    }
}

impl Ord for Keyed {
    fn cmp(&self, other: &Self) -> Ordering {
        self.key.cmp(&other.key)
    }
}

fn pseudo_random(n: usize, seed: u64, modulo: u64) -> Vec<i64> {
    let mut x = seed;
    let mut out = Vec::with_capacity(n);
    for _ in 0..n {
        x = x.wrapping_mul(6364136223846793005).wrapping_add(1442695040888963407);
        out.push(((x >> 33) % modulo) as i64);
    }
    out
}

fn keyed(keys: &[i64]) -> Vec<Keyed> {
    keys.iter().enumerate().map(|(i, k)| Keyed { key: *k as i32, tag: i as u32 }).collect()
}

fn is_stable_sorted(input: &[Keyed], output: &[Keyed]) -> bool {
    let mut expected = input.to_vec();
    expected.sort();
    let pairs = |v: &[Keyed]| v.iter().map(|k| (k.key, k.tag)).collect::<Vec<_>>();
    pairs(&expected) == pairs(output)
        && output.iter().zip(output.iter().skip(1)).all(|(a, b)| a.key < b.key || (a.key == b.key && a.tag < b.tag))
}

#[test]
fn insertion_sort_sorts_small_input() {
    let mut v = vec![5, -3, 9, 0, 0, 2, -7, 5];
    insertion_sort(&mut v);
    assert_eq!(v, vec![-7, -3, 0, 0, 2, 5, 5, 9]);
}

#[test]
fn insertion_sort_empty_and_single() {
    let mut empty: Vec<i32> = vec![];
    insertion_sort(&mut empty);
    assert_eq!(empty, Vec::<i32>::new());
    let mut one = vec![42];
    insertion_sort(&mut one);
    assert_eq!(one, vec![42]);
}

#[test]
fn insertion_sort_is_stable() {
    let input = keyed(&[3, 1, 3, 2, 1, 3, 0]);
    let mut v = input.clone();
    insertion_sort(&mut v);
    assert!(is_stable_sorted(&input, &v));
    let tags: Vec<u32> = v.iter().map(|k| k.tag).collect();
    assert_eq!(tags, vec![6, 1, 4, 3, 0, 2, 5]);
}

#[test]
fn engine_small_input_uses_insertion_sort() {
    let mut v = vec![-5, 4, 1, -3, 2];
    ordenar_multi_merge_generic(&mut v);
    assert_eq!(v, vec![-5, -3, 1, 2, 4]);
}

#[test]
fn engine_sorts_medium_random_input() {
    let input = pseudo_random(5000, 7, 1000);
    let mut v = input.clone();
    ordenar_multi_merge_generic(&mut v);
    let mut expected = input;
    expected.sort();
    assert_eq!(v, expected);
}

#[test]
fn engine_noise_path_is_stable() {
    let input = keyed(&pseudo_random(4000, 11, 50));
    let mut v = input.clone();
    ordenar_multi_merge_generic(&mut v);
    assert!(is_stable_sorted(&input, &v));
}

#[test]
fn engine_merge_path_is_stable() {
    let mut keys: Vec<i64> = (0..3000).map(|i| i / 3).collect();
    keys.extend((0..3000).map(|i| i / 3));
    let input = keyed(&keys);
    let mut v = input.clone();
    ordenar_multi_merge_generic(&mut v);
    assert!(is_stable_sorted(&input, &v));
}

#[test]
fn engine_leaves_sorted_input_unchanged() {
    let input: Vec<i64> = (0..150_000).map(|i| i / 2).collect();
    let mut v = input.clone();
    ordenar_multi_merge_generic(&mut v);
    assert_eq!(v, input);
}

#[test]
fn engine_reverses_descending_input() {
    let input: Vec<i64> = (0..150_000).rev().collect();
    let mut v = input.clone();
    ordenar_multi_merge_generic(&mut v);
    let expected: Vec<i64> = (0..150_000).collect();
    assert_eq!(v, expected);
}

#[test]
fn engine_non_increasing_input_with_ties_stays_stable() {
    let keys: Vec<i64> = (0..150_000).rev().map(|i| i / 2).collect();
    let input = keyed(&keys);
    let mut v = input.clone();
    ordenar_multi_merge_generic(&mut v);
    assert!(is_stable_sorted(&input, &v));
    assert_eq!((v[0].key, v[0].tag), (0, 149_998));
    assert_eq!((v[1].key, v[1].tag), (0, 149_999));
}

#[test]
fn engine_reverses_strictly_falling_keyed_input() {
    let keys: Vec<i64> = (0..150_000).rev().collect();
    let input = keyed(&keys);
    let mut v = input.clone();
    ordenar_multi_merge_generic(&mut v);
    assert!(is_stable_sorted(&input, &v));
    assert_eq!(v.iter().map(|k| k.tag).collect::<Vec<_>>(), (0..150_000u32).rev().collect::<Vec<_>>());
}

#[test]
fn engine_sorts_two_concatenated_runs() {
    let mut input: Vec<i64> = (0..120_000).collect();
    input.extend(0..120_000);
    let mut v = input.clone();
    ordenar_multi_merge_generic(&mut v);
    let mut expected = input;
    expected.sort();
    assert_eq!(v, expected);
}

#[test]
fn engine_parallel_split_above_threshold() {
    let mut input: Vec<i32> = (0..1_100_000).map(|i| (i * 7) % 1_000_003).collect();
    input.extend((0..1_100_000).map(|i| i % 1000));
    let mut v = input.clone();
    ordenar_multi_merge_generic(&mut v);
    let mut expected = input;
    expected.sort();
    assert_eq!(v, expected);
}

#[test]
fn engine_sorts_random_input_with_trend_check() {
    let input = pseudo_random(120_000, 3, 1_000_000);
    let mut v = input.clone();
    ordenar_multi_merge_generic(&mut v);
    let mut expected = input;
    expected.sort();
    assert_eq!(v, expected);
}

#[test]
fn minrun_values() {
    assert_eq!(calcular_minrun(0), 0);
    assert_eq!(calcular_minrun(1), 1);
    assert_eq!(calcular_minrun(63), 63);
    assert_eq!(calcular_minrun(64), 32);
    assert_eq!(calcular_minrun(65), 33);
    assert_eq!(calcular_minrun(127), 64);
    assert_eq!(calcular_minrun(128), 32);
    assert_eq!(calcular_minrun(1_000_000), 62);
}

#[test]
fn engine_sorting_twice_changes_nothing() {
    let input = keyed(&pseudo_random(3000, 5, 40));
    let mut once = input.clone();
    ordenar_multi_merge_generic(&mut once);
    let mut twice = once.clone();
    ordenar_multi_merge_generic(&mut twice);
    assert_eq!(once.iter().map(|k| k.tag).collect::<Vec<_>>(), twice.iter().map(|k| k.tag).collect::<Vec<_>>());
}

#[test]
fn engine_result_is_determined_by_input() {
    let input = keyed(&pseudo_random(2500, 9, 30));
    let mut a = input.clone();
    let mut b = input.clone();
    ordenar_multi_merge_generic(&mut a);
    ordenar_multi_merge_generic(&mut b);
    assert_eq!(a.iter().map(|k| k.tag).collect::<Vec<_>>(), b.iter().map(|k| k.tag).collect::<Vec<_>>());
}

#[test]
fn engine_keeps_every_element() {
    let input = pseudo_random(2000, 13, 10);
    let mut v = input.clone();
    ordenar_multi_merge_generic(&mut v);
    for x in 0..10 {
        assert_eq!(v.iter().filter(|y| **y == x).count(), input.iter().filter(|y| **y == x).count());
    }
}
