use parallel_sum::generate::{generate_numbers, NumberRange};
use parallel_sum::manual::{add_numbers_in_chunks, add_partial_sums, copy_chunk, split_for_workers};
use parallel_sum::partition::{partition, Chunk};
use parallel_sum::sequential::{add_numbers_not_threaded, checked_add_numbers, widen};
use parallel_sum::work_stealing::add_numbers_rayon_threads;

fn one_to(n: u32) -> Vec<u32> {
    (1..=n).collect()
}

fn mixed(count: usize) -> Vec<u32> {
    let mut list = Vec::with_capacity(count);
    let mut x: u32 = 12_345;
    for _ in 0..count {
        x = x.wrapping_mul(1_664_525).wrapping_add(1_013_904_223);
        list.push(x % 1_000_000 + 1);
    }
    list
}

fn reference_sum(list: &[u32]) -> u64 {
    let mut sum = 0u64;
    for n in list {
        sum += u64::from(*n);
    }
    sum
}

#[test]
fn empty_list_sums_to_zero() {
    let list: Vec<u32> = Vec::new();
    assert_eq!(add_numbers_not_threaded(&list), 0);
    assert_eq!(checked_add_numbers(&list), Some(0));
    assert_eq!(add_numbers_in_chunks(&list, 0), 0);
    assert_eq!(add_numbers_in_chunks(&list, 4), 0);
    assert_eq!(add_numbers_rayon_threads(&list), 0);
}

#[test]
fn one_to_hundred_sums_to_5050_everywhere() {
    let list = one_to(100);
    assert_eq!(add_numbers_not_threaded(&list), 5050);
    assert_eq!(add_numbers_in_chunks(&list, 2), 5050);
    assert_eq!(add_numbers_rayon_threads(&list), 5050);
    assert_eq!(checked_add_numbers(&list), Some(5050));
}

#[test]
fn zero_workers_is_the_sequential_sum() {
    for list in [Vec::new(), one_to(100), mixed(250_001)] {
        assert_eq!(add_numbers_in_chunks(&list, 0), add_numbers_not_threaded(&list));
    }
}

#[test]
fn all_reducers_agree_on_a_long_list() {
    let list = mixed(1_000_003);
    let expected = reference_sum(&list);
    assert_eq!(add_numbers_not_threaded(&list), expected);
    assert_eq!(add_numbers_rayon_threads(&list), expected);
    for workers in [0u32, 1, 2, 3, 4, 7, 10, 50, u32::MAX] {
        assert_eq!(add_numbers_in_chunks(&list, workers), expected);
    }
}

#[test]
fn large_elements_need_the_wide_sum() {
    let list = vec![u32::MAX; 3];
    assert_eq!(add_numbers_not_threaded(&list), 12_884_901_885);
    assert_eq!(add_numbers_rayon_threads(&list), 12_884_901_885);
    assert_eq!(checked_add_numbers(&list), Some(12_884_901_885));
    assert_eq!(widen(&u32::MAX), 4_294_967_295u64);
}

#[test]
fn reducers_repeat_their_result() {
    let list = mixed(300_001);
    assert_eq!(add_numbers_not_threaded(&list), add_numbers_not_threaded(&list));
    assert_eq!(add_numbers_in_chunks(&list, 3), add_numbers_in_chunks(&list, 3));
    assert_eq!(add_numbers_rayon_threads(&list), add_numbers_rayon_threads(&list));
}

#[test]
fn rayon_sum_is_not_the_first_element() {
    let list = vec![7u32, 8, 9];
    assert_eq!(add_numbers_rayon_threads(&list), 24);
}

#[test]
fn buffers_are_the_chunks_in_order() {
    let list = mixed(250_000);
    let buffers = split_for_workers(&list, 3);
    assert_eq!(buffers.len(), 2);
    assert_eq!(buffers[0], list[..125_000].to_vec());
    assert_eq!(buffers[1], list[125_000..].to_vec());
}

#[test]
fn no_buffers_without_workers() {
    let list = mixed(250_000);
    assert!(split_for_workers(&list, 0).is_empty());
    assert!(split_for_workers(&one_to(100), 2).is_empty());
    assert!(split_for_workers(&[], 2).is_empty());
}

#[test]
fn copy_chunk_copies_the_range() {
    let list = one_to(10);
    assert_eq!(copy_chunk(&list, &Chunk { start: 2, end: 5 }), vec![3, 4, 5]);
    assert_eq!(copy_chunk(&list, &Chunk { start: 0, end: 10 }), list);
    assert_eq!(copy_chunk(&list, &Chunk { start: 4, end: 4 }), Vec::<u32>::new());
}

#[test]
fn partial_sums_add_up() {
    assert_eq!(add_partial_sums(&[]), 0);
    assert_eq!(add_partial_sums(&[5]), 5);
    assert_eq!(add_partial_sums(&[1, 2, 3]), 6);
    assert_eq!(add_partial_sums(&[u64::MAX - 1, 1]), u64::MAX);
}

#[test]
fn partial_sums_in_any_order_give_the_sequential_sum() {
    let list = mixed(400_000);
    let (workers, chunks) = partition(list.len(), 4);
    assert_eq!(workers, 4);
    let mut partials: Vec<u64> =
        chunks.iter().map(|c| add_numbers_not_threaded(&copy_chunk(&list, c))).collect();
    let expected = add_numbers_not_threaded(&list);
    assert_eq!(add_partial_sums(&partials), expected);
    partials.reverse();
    assert_eq!(add_partial_sums(&partials), expected);
    partials.swap(0, 2);
    assert_eq!(add_partial_sums(&partials), expected);
}

#[test]
fn generated_numbers_have_count_and_range() {
    let range = NumberRange::new_inclusive(1, 1_000_000);
    let numbers = generate_numbers(10_000, range);
    assert_eq!(numbers.len(), 10_000);
    assert!(numbers.iter().all(|n| 1 <= *n && *n <= 1_000_000));
    assert!(generate_numbers(0, range).is_empty());
}

#[test]
fn generated_numbers_respect_a_narrow_range() {
    let numbers = generate_numbers(1_000, NumberRange::new_inclusive(5, 7));
    assert_eq!(numbers.len(), 1_000);
    assert!(numbers.iter().all(|n| 5 <= *n && *n <= 7));
    let fixed = generate_numbers(100, NumberRange::new_inclusive(42, 42));
    assert_eq!(fixed, vec![42u32; 100]);
    let wide = generate_numbers(100, NumberRange::new_inclusive(0, u32::MAX));
    assert_eq!(wide.len(), 100);
}

#[test]
fn generated_numbers_sum_alike_in_every_reducer() {
    let numbers = generate_numbers(350_000, NumberRange::new_inclusive(1, 1_000_000));
    let expected = add_numbers_not_threaded(&numbers);
    assert_eq!(add_numbers_in_chunks(&numbers, 50), expected);
    assert_eq!(add_numbers_rayon_threads(&numbers), expected);
    assert!(expected >= 350_000);
    assert!(expected <= 350_000_000_000);
}
