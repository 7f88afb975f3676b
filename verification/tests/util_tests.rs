use std::cmp::Ordering;

use webcrawl::bits::set_bit;
use webcrawl::counter::AtomicCounter;
use webcrawl::sorting::{bin_search, merge, partition, quicksort, sort_by_month,
    sort_lexicographically};
use webcrawl::strings::{check_unique, reverse_string, reverse_words_string};
use webcrawl::vecops::delete_ith_from_vec;

#[test]
fn quicksort_sorts_and_keeps_elements() {
    let mut arr = vec![52, 33, 44, 1, 2, 42];
    quicksort(&mut arr);
    assert_eq!(arr, vec![1, 2, 33, 42, 44, 52]);

    let mut dups = vec![3, 1, 3, 2, 1];
    quicksort(&mut dups);
    assert_eq!(dups, vec![1, 1, 2, 3, 3]);

    let mut empty: Vec<i64> = vec![];
    quicksort(&mut empty);
    assert!(empty.is_empty());
}

#[test]
fn partition_splits_around_the_pivot() {
    let mut arr = vec![9, 1, 8, 2, 5];
    let p = partition(&mut arr, 0, 5);
    let pivot = arr[p];
    assert_eq!(pivot, 5);
    for k in 0..p {
        assert!(arr[k] < pivot);
    }
    for k in p + 1..5 {
        assert!(arr[k] >= pivot);
    }
}

#[test]
fn binary_search_finds_and_rejects() {
    let arr = vec![1, 2, 3, 4, 5];
    assert_eq!(bin_search(&arr, 3), Some(2));
    assert_eq!(bin_search(&arr, 2), Some(1));
    assert_eq!(bin_search(&arr, 6), None);
    assert_eq!(bin_search(&vec![], 1), None);
}

#[test]
fn merge_alternates_then_drains() {
    let a = vec![1, 3, 5, 7];
    let b = vec![2, 4, 6, 8];
    assert_eq!(merge(&a, &b), vec![1, 2, 3, 4, 5, 6, 7, 8]);
    let c = vec![1, 2];
    let d = vec![10, 20, 30, 40];
    assert_eq!(merge(&c, &d), vec![1, 10, 2, 20, 30, 40]);
}

#[test]
fn set_bit_sets_and_clears() {
    assert_eq!(set_bit(8, 0, true), 9);
    assert_eq!(set_bit(13, 2, false), 9);
    assert_eq!(set_bit(13, 2, true), 13);
    assert_eq!(set_bit(0, 63, true), i64::MIN);
}

#[test]
fn delete_swaps_in_the_last_element() {
    let mut v = vec![1, 2, 3, 4, 5];
    assert!(delete_ith_from_vec(&mut v, 0).is_ok());
    assert_eq!(v, vec![5, 2, 3, 4]);
    assert!(delete_ith_from_vec(&mut v, 4).is_err());
    assert_eq!(v, vec![5, 2, 3, 4]);
}

#[test]
fn counter_counts() {
    let mut c = AtomicCounter::new();
    assert_eq!(c.get_count(), 0);
    c.increment();
    c.increment();
    c.increment();
    assert_eq!(c.get_count(), 3);
    let d = AtomicCounter::default();
    assert_eq!(d.get_count(), 0);
}

#[test]
fn reverse_string_reverses_unicode() {
    let mut s = String::from("главрыба");
    reverse_string(&mut s);
    assert_eq!(s, "абырвалг");
    let mut e = String::new();
    reverse_string(&mut e);
    assert_eq!(e, "");
}

#[test]
fn reverse_words_reverses_word_order() {
    let mut s = String::from("snow dog sun");
    reverse_words_string(&mut s);
    assert_eq!(s, "sun dog snow");
    let mut t = String::from("  spaced   out  ");
    reverse_words_string(&mut t);
    assert_eq!(t, "out spaced");
}

#[test]
fn unique_characters_ignore_case() {
    assert_eq!(check_unique(&"abcd".to_string()), true);
    assert_eq!(check_unique(&"abCdefAaf".to_string()), false);
    assert_eq!(check_unique(&"aabcd".to_string()), false);
    // Case-insensitive: 'a' and 'A' collide only after lowercasing.
    assert_eq!(check_unique(&"aA".to_string()), false);
    assert_eq!(check_unique(&"".to_string()), true);
}

#[test]
fn lexicographic_ordering_of_texts() {
    assert_eq!(sort_lexicographically("apple", "banana"), Ordering::Less);
    assert_eq!(sort_lexicographically("pear", "pea"), Ordering::Greater);
    assert_eq!(sort_lexicographically("same", "same"), Ordering::Equal);
}

#[test]
fn month_ordering_puts_unknown_names_last() {
    assert_eq!(sort_by_month("Jan", "Feb"), Ordering::Less);
    assert_eq!(sort_by_month("Dec", "Aug"), Ordering::Greater);
    assert_eq!(sort_by_month("May", "May"), Ordering::Equal);
    assert_eq!(sort_by_month("Dec", "nonsense"), Ordering::Less);
}
