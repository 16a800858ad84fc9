use key_bin_sort::index::{BinKey, BinLayout, Offset};
use key_bin_sort::key_sort::{Bin, KeyBinSort, SMALL_SORT_LEN};
use std::cmp::Ordering;

fn by_key_then_payload(a: &(i64, u32), b: &(i64, u32)) -> Ordering {
    a.0.cmp(&b.0).then(a.1.cmp(&b.1))
}

fn spans(bins: &[Bin]) -> Vec<(usize, usize)> {
    bins.iter().map(|b| (b.offset, b.data)).collect()
}

fn sorted_copy<T: Clone>(v: &[T], cmp: impl Fn(&T, &T) -> Ordering) -> Vec<T> {
    let mut w = v.to_vec();
    w.sort_by(|a, b| cmp(a, b));
    w
}

/// Checks that the bins tile the batch, that each item sits in the bin the
/// layout derived from the batch gives it, and that keys grow across bins.
fn check_partition(before: &[(i64, u32)], after: &[(i64, u32)], bins: &[Bin]) {
    let mut a = before.to_vec();
    let mut b = after.to_vec();
    a.sort();
    b.sort();
    assert_eq!(a, b);
    if before.is_empty() {
        assert!(bins.is_empty());
        return;
    }
    assert_eq!(bins[0].offset, 0);
    assert_eq!(bins[bins.len() - 1].data, before.len());
    for w in bins.windows(2) {
        assert_eq!(w[0].data, w[1].offset);
    }
    let min = before.iter().map(|p| p.0).min().unwrap();
    let max = before.iter().map(|p| p.0).max().unwrap();
    match BinLayout::new(min..max, before.len()) {
        None => assert_eq!(spans(bins), vec![(0, before.len())]),
        Some(layout) => {
            assert_eq!(bins.len(), layout.index(max) + 1);
            for (c, bin) in bins.iter().enumerate() {
                for item in &after[bin.offset..bin.data] {
                    assert_eq!(item.bin_index(&layout), c);
                }
            }
        }
    }
    for c in 1..bins.len() {
        let prev = &after[bins[c - 1].offset..bins[c - 1].data];
        let here = &after[bins[c].offset..bins[c].data];
        for p in prev {
            for h in here {
                assert!(p.0 < h.0);
            }
        }
    }
}

/// A small linear congruential generator, enough to vary the inputs.
struct Lcg(u64);

impl Lcg {
    fn next(&mut self) -> u64 {
        self.0 = self.0.wrapping_mul(6364136223846793005).wrapping_add(1442695040888963407);
        self.0 >> 33
    }
}

#[test]
fn offset_of_each_key_type() {
    assert_eq!(5i64.offset(-3), 8);
    assert_eq!((-5i32).offset(-10), 5);
    assert_eq!(10usize.offset(3), 7);
    assert_eq!(3usize.offset(10), usize::MAX - 6);
    assert_eq!(3usize.offset(5), usize::MAX - 1);
    assert_eq!((-1i64).offset(0), usize::MAX);
    assert_eq!(i64::MIN.offset(i64::MAX), 1);
    assert_eq!((-10i32).offset(-5), usize::MAX - 4);
    assert_eq!(i64::MAX.offset(i64::MIN), usize::MAX);
    assert!(3i64.precedes(4));
    assert!(!4i32.precedes(4));
}

#[test]
fn layout_skipped_for_tiny_batch() {
    assert!(BinLayout::new(0i64..100, 3).is_none());
    assert!(BinLayout::new(5i64..5, 1000).is_none());
    assert!(BinLayout::new(0i64..1, 4).is_none());
    assert!(BinLayout::new(0i64..2, 3).is_none());
    assert!(BinLayout::new(0i64..2, 4).is_some());
}

#[test]
fn layout_power_from_range_and_count() {
    let layout = BinLayout::new(0i64..99, 100).unwrap();
    assert_eq!(layout.power, 1);
    assert_eq!(layout.min_key, 0);
    assert_eq!(layout.index(7), 3);
    assert_eq!(layout.index(99), 49);
    assert_eq!(BinLayout::new(0i64..19, 20).unwrap().power, 1);
    assert_eq!(layout.index(-1), usize::MAX >> 1);
}

#[test]
fn layout_capped_at_max_bin_count() {
    let layout = BinLayout::new(0i64..999_999, 1_000_000).unwrap();
    assert_eq!(layout.power, 7);
    assert!(layout.index(999_999) + 1 <= 8192);
}

#[test]
fn layout_over_full_key_range() {
    let layout = BinLayout::new(i64::MIN..i64::MAX, 100).unwrap();
    assert_eq!(layout.power, 59);
    assert_eq!(layout.index(i64::MIN), 0);
    assert_eq!(layout.index(i64::MAX), 31);
}

#[test]
fn concrete_keys_distributed_into_bins() {
    let keys = [13i64, 1, 10, 4, 8, 7, 8, 10, 14];
    let before: Vec<(i64, u32)> = keys.iter().enumerate().map(|(i, k)| (*k, i as u32)).collect();
    let mut v = before.clone();
    let bins = v.sort_by_bins();
    assert_eq!(spans(&bins), vec![(0, 2), (2, 5), (5, 7), (7, 9)]);
    check_partition(&before, &v, &bins);
}

#[test]
fn concrete_keys_fully_sorted() {
    let keys = [13i64, 1, 10, 4, 8, 7, 8, 10, 14];
    let before: Vec<(i64, u32)> = keys.iter().enumerate().map(|(i, k)| (*k, 100 + i as u32)).collect();
    let mut v = before.clone();
    v.sort_with_bins(by_key_then_payload);
    let got: Vec<i64> = v.iter().map(|p| p.0).collect();
    assert_eq!(got, vec![1, 4, 7, 8, 8, 10, 10, 13, 14]);
    assert_eq!(v, vec![(1, 101), (4, 103), (7, 105), (8, 104), (8, 106), (10, 102), (10, 107), (13, 100), (14, 108)]);
}

#[test]
fn concrete_keys_bin_then_sort_composition() {
    let keys = [13i64, 1, 10, 4, 8, 7, 8, 10, 14];
    let mut v: Vec<(i64, u32)> = keys.iter().chain(keys.iter()).enumerate().map(|(i, k)| (*k, i as u32)).collect();
    let expected = sorted_copy(&v, by_key_then_payload);
    let mut w = v.clone();
    let bins = w.sort_by_bins();
    assert_eq!(bins.len(), 7);
    for b in &bins {
        w[b.offset..b.data].sort_by(by_key_then_payload);
    }
    assert_eq!(w, expected);
    v.sort_with_bins(by_key_then_payload);
    assert_eq!(v, expected);
    let got: Vec<i64> = v.iter().map(|p| p.0).collect();
    assert_eq!(got, vec![1, 1, 4, 4, 7, 7, 8, 8, 8, 8, 10, 10, 10, 10, 13, 13, 14, 14]);
}

#[test]
fn empty_batch_has_no_bins() {
    let mut v: Vec<(i64, u32)> = Vec::new();
    assert!(v.sort_by_bins().is_empty());
    v.sort_with_bins(by_key_then_payload);
    assert!(v.is_empty());
}

#[test]
fn equal_keys_make_one_bin() {
    let before: Vec<(i64, u32)> = (0..40).map(|i| (5, 40 - i)).collect();
    let mut v = before.clone();
    let bins = v.sort_by_bins();
    assert_eq!(spans(&bins), vec![(0, 40)]);
    assert_eq!(v, before);
}

#[test]
fn small_batch_sorted_directly() {
    let mut rng = Lcg(7);
    let before: Vec<(i64, u32)> = (0..SMALL_SORT_LEN).map(|i| ((rng.next() % 50) as i64 - 25, i as u32)).collect();
    let mut v = before.clone();
    v.sort_with_bins(by_key_then_payload);
    assert_eq!(v, sorted_copy(&before, by_key_then_payload));
    let mut w = before.clone();
    w.sort_unstable_with_bins(by_key_then_payload);
    assert_eq!(w, sorted_copy(&before, by_key_then_payload));
}

#[test]
fn small_batch_with_disagreeing_comparator() {
    let before: Vec<(i64, u32)> = (0..10).map(|i| (i as i64, i as u32)).collect();
    let mut v = before.clone();
    v.sort_with_bins(|a, b| b.0.cmp(&a.0));
    let got: Vec<i64> = v.iter().map(|p| p.0).collect();
    assert_eq!(got, vec![9, 8, 7, 6, 5, 4, 3, 2, 1, 0]);
}

#[test]
fn large_batch_with_disagreeing_comparator_is_grouped() {
    let before: Vec<(i64, u32)> = (0..64).map(|i| (i as i64, i as u32)).collect();
    let mut probe = before.clone();
    let bins = probe.sort_by_bins();
    let mut v = before.clone();
    v.sort_with_bins(|a, b| b.0.cmp(&a.0));
    for b in &bins {
        let part = &v[b.offset..b.data];
        for w in part.windows(2) {
            assert!(w[0].0 > w[1].0);
        }
        for item in part {
            assert!(item.0 as usize >= b.offset && (item.0 as usize) < b.data);
        }
    }
}

#[test]
fn sorting_sorted_input_changes_nothing() {
    let mut rng = Lcg(11);
    let mut v: Vec<(i64, u32)> = (0..300).map(|i| ((rng.next() % 1000) as i64, i as u32)).collect();
    v.sort_with_bins(by_key_then_payload);
    let once = v.clone();
    v.sort_with_bins(by_key_then_payload);
    assert_eq!(v, once);
    v.sort_unstable_with_bins(by_key_then_payload);
    assert_eq!(v, once);
}

#[test]
fn random_batches_partitioned() {
    let mut rng = Lcg(3);
    for _ in 0..200 {
        let len = (rng.next() % 300) as usize;
        let spread = 1 + rng.next() % 5000;
        let before: Vec<(i64, u32)> = (0..len).map(|i| ((rng.next() % spread) as i64 - 2500, i as u32)).collect();
        let mut v = before.clone();
        let bins = v.sort_by_bins();
        check_partition(&before, &v, &bins);
    }
}

#[test]
fn random_batches_match_reference_sort() {
    let mut rng = Lcg(42);
    for _ in 0..1000 {
        let len = (rng.next() % 200) as usize;
        let before: Vec<(i64, u32)> = (0..len).map(|_| ((rng.next() % 512) as i64 - 256, (rng.next() % 64) as u32)).collect();
        let expected = sorted_copy(&before, by_key_then_payload);
        let mut v = before.clone();
        v.sort_with_bins(by_key_then_payload);
        assert_eq!(v, expected);
        let mut w = before.clone();
        w.sort_unstable_with_bins(by_key_then_payload);
        assert_eq!(w, expected);
    }
}

#[test]
fn narrow_and_unsigned_keys() {
    let mut a: Vec<(i32, u8)> = (0..50).map(|i| (((i * 37) % 101) as i32 - 50, i as u8)).collect();
    let expected_a = sorted_copy(&a, |x, y| x.cmp(y));
    a.sort_with_bins(|x, y| x.cmp(y));
    assert_eq!(a, expected_a);
    let mut b: Vec<(usize, u8)> = (0..50).map(|i| ((i * 7919) % 1000, i as u8)).collect();
    let expected_b = sorted_copy(&b, |x, y| x.cmp(y));
    b.sort_unstable_with_bins(|x, y| x.cmp(y));
    assert_eq!(b, expected_b);
    assert_eq!((3usize, 0u8).bin_key(), 3);
}

#[test]
fn small_batch_sort_is_stable() {
    let keys = [13i64, 1, 10, 4, 8, 7, 8, 10, 14];
    let mut v: Vec<(i64, u32)> = keys.iter().enumerate().map(|(i, k)| (*k, i as u32)).collect();
    v.sort_with_bins(|a, b| a.0.cmp(&b.0));
    assert_eq!(v, vec![(1, 1), (4, 3), (7, 5), (8, 4), (8, 6), (10, 2), (10, 7), (13, 0), (14, 8)]);
}

#[test]
fn skipped_layout_leaves_batch_untouched() {
    let before: Vec<(i64, u32)> = vec![(1, 9), (0, 8), (1, 7), (0, 6), (1, 5)];
    let mut v = before.clone();
    let bins = v.sort_by_bins();
    assert_eq!(spans(&bins), vec![(0, 5)]);
    assert_eq!(v, before);
}

#[test]
fn distributed_batch_stays_in_place() {
    let mut rng = Lcg(5);
    let mut v: Vec<(i64, u32)> = (0..500).map(|i| ((rng.next() % 3000) as i64, i as u32)).collect();
    let first = v.sort_by_bins();
    let once = v.clone();
    let second = v.sort_by_bins();
    assert_eq!(spans(&first), spans(&second));
    assert_eq!(v, once);
}

#[test]
fn descending_batch_sorted() {
    let mut v: Vec<(i64, u32)> = (0..20).rev().map(|i| (i as i64, 0)).collect();
    v.sort_with_bins(|a, b| a.cmp(b));
    let got: Vec<i64> = v.iter().map(|p| p.0).collect();
    assert_eq!(got, (0..20).collect::<Vec<i64>>());
}
