use kmv_sketch::estimator::estimate_from_max;
use kmv_sketch::Sketch;
use std::collections::hash_map::DefaultHasher;
use std::hash::Hasher;

fn std_hash(value: &str) -> u64 {
    let mut hasher = DefaultHasher::new();
    hasher.write(value.as_bytes());
    hasher.finish()
}

fn exact_estimate(k: u128, top: u128) -> u64 {
    let n = (k - 1) * (u64::MAX as u128);
    let twice = 2 * (n % top);
    let q = n / top + if twice >= top { 1 } else { 0 };
    if q > u64::MAX as u128 {
        u64::MAX
    } else {
        q as u64
    }
}

#[test]
fn new_sketch_has_no_estimate() {
    let sketch = Sketch::new(32);
    assert_eq!(sketch.estimate(), None);
    assert_eq!(sketch.total_adds(), 0);
    assert_eq!(sketch.k(), 32);
    assert!(sketch.retained().is_empty());
}

#[test]
fn estimate_is_present_after_first_add() {
    let mut sketch = Sketch::new(32);
    assert!(sketch.estimate().is_none());
    sketch.add("x");
    assert!(sketch.estimate().is_some());
    sketch.add("x");
    assert!(sketch.estimate().is_some());
}

#[test]
fn estimate_is_present_after_first_add_of_empty_value() {
    let mut sketch = Sketch::new(4);
    sketch.add("");
    assert_eq!(sketch.total_adds(), 1);
    assert_eq!(sketch.retained(), vec![std_hash("")]);
    assert!(sketch.estimate().is_some());
}

#[test]
fn three_values_one_repeated() {
    let mut sketch = Sketch::new(32);
    sketch.add("a");
    sketch.add("b");
    sketch.add("c");
    sketch.add("a");

    let retained = sketch.retained();
    assert_eq!(retained.len(), 3);
    assert_eq!(sketch.total_adds(), 4);

    let mut expected = vec![std_hash("a"), std_hash("b"), std_hash("c")];
    expected.sort();
    assert_eq!(retained, expected);

    let top = *retained.last().unwrap();
    let estimate = sketch.estimate();
    assert!(estimate.is_some());
    let estimate = estimate.unwrap();
    assert_eq!(estimate, exact_estimate(32, top as u128));
    assert_eq!(estimate, estimate_from_max(32, top));

    let u = top as f64 / u64::MAX as f64;
    let by_floats = (31.0 / u).round();
    let gap = (estimate as f64 - by_floats).abs();
    assert!(gap <= by_floats * 1e-9 + 1.0);
}

#[test]
fn hash_is_that_of_the_default_hasher() {
    assert_eq!(Sketch::hash("a"), std_hash("a"));
    assert_eq!(Sketch::hash(""), std_hash(""));
    assert_eq!(Sketch::hash("k-minimum values"), std_hash("k-minimum values"));
}

#[test]
fn hash_tells_values_apart_and_repeats_itself() {
    assert_eq!(Sketch::hash("a"), Sketch::hash("a"));
    assert_ne!(Sketch::hash("a"), Sketch::hash("b"));
    assert_ne!(Sketch::hash("a"), Sketch::hash("aa"));
    assert_ne!(Sketch::hash(""), Sketch::hash("a"));
}

#[test]
fn add_is_add_hash_of_the_hash() {
    let mut by_value = Sketch::new(3);
    let mut by_hash = Sketch::new(3);
    for word in ["one", "two", "three", "four", "two", "five"] {
        by_value.add(word);
        by_hash.add_hash(Sketch::hash(word));
        assert_eq!(by_value.retained(), by_hash.retained());
        assert_eq!(by_value.estimate(), by_hash.estimate());
        assert_eq!(by_value.total_adds(), by_hash.total_adds());
    }
}

#[test]
fn retained_never_exceeds_width() {
    for k in [1usize, 2, 3, 8, 32] {
        let mut sketch = Sketch::new(k);
        for i in 0..500u32 {
            sketch.add(&format!("item-{}", i % 200));
            assert!(sketch.retained().len() <= k);
        }
        assert_eq!(sketch.retained().len(), k);
        assert_eq!(sketch.total_adds(), 500);
    }
}

#[test]
fn retained_grows_until_width_is_reached() {
    let mut sketch = Sketch::new(4);
    let hashes = [70u64, 30, 50, 10, 60, 20];
    let sizes = [1usize, 2, 3, 4, 4, 4];
    for (h, n) in hashes.iter().zip(sizes.iter()) {
        sketch.add_hash(*h);
        assert_eq!(sketch.retained().len(), *n);
    }
    assert_eq!(sketch.retained(), vec![10, 20, 30, 50]);
}

#[test]
fn eviction_drops_the_largest() {
    let mut sketch = Sketch::new(3);
    sketch.add_hash(50);
    sketch.add_hash(10);
    sketch.add_hash(40);
    assert_eq!(sketch.retained(), vec![10, 40, 50]);
    sketch.add_hash(30);
    assert_eq!(sketch.retained(), vec![10, 30, 40]);
    sketch.add_hash(20);
    assert_eq!(sketch.retained(), vec![10, 20, 30]);
    sketch.add_hash(60);
    assert_eq!(sketch.retained(), vec![10, 20, 30]);
    assert_eq!(sketch.total_adds(), 6);
    assert_eq!(sketch.estimate(), Some(exact_estimate(3, 30)));
}

#[test]
fn a_hash_larger_than_all_of_a_full_sketch_is_counted_and_not_kept() {
    let mut sketch = Sketch::new(2);
    sketch.add_hash(1);
    sketch.add_hash(2);
    let before = sketch.estimate();
    sketch.add_hash(u64::MAX);
    assert_eq!(sketch.retained(), vec![1, 2]);
    assert_eq!(sketch.estimate(), before);
    assert_eq!(sketch.total_adds(), 3);
}

#[test]
fn repeats_change_the_count_only() {
    let mut sketch = Sketch::new(32);
    sketch.add("first");
    sketch.add("second");
    sketch.add("x");
    let retained = sketch.retained();
    let estimate = sketch.estimate();
    for i in 0..10u64 {
        sketch.add("x");
        assert_eq!(sketch.retained(), retained);
        assert_eq!(sketch.estimate(), estimate);
        assert_eq!(sketch.total_adds(), 4 + i);
    }
}

#[test]
fn repeats_of_an_evicted_hash_change_the_count_only() {
    let mut sketch = Sketch::new(2);
    sketch.add_hash(5);
    sketch.add_hash(7);
    sketch.add_hash(9);
    let retained = sketch.retained();
    let estimate = sketch.estimate();
    assert_eq!(retained, vec![5, 7]);
    sketch.add_hash(9);
    sketch.add_hash(9);
    assert_eq!(sketch.retained(), retained);
    assert_eq!(sketch.estimate(), estimate);
    assert_eq!(sketch.total_adds(), 5);
}

#[test]
fn order_of_values_does_not_matter() {
    let words: Vec<String> = (0..300u32).map(|i| format!("word-{}", i)).collect();

    let mut forward = Sketch::new(16);
    for w in words.iter() {
        forward.add(w);
    }
    let mut backward = Sketch::new(16);
    for w in words.iter().rev() {
        backward.add(w);
    }
    let mut strided = Sketch::new(16);
    for start in 0..7 {
        let mut i = start;
        while i < words.len() {
            strided.add(&words[i]);
            i += 7;
        }
    }

    assert_eq!(forward.retained(), backward.retained());
    assert_eq!(forward.retained(), strided.retained());
    assert_eq!(forward.estimate(), backward.estimate());
    assert_eq!(forward.estimate(), strided.estimate());
    assert_eq!(forward.total_adds(), 300);
    assert_eq!(strided.total_adds(), 300);
}

#[test]
fn order_of_hashes_does_not_matter() {
    let mut a = Sketch::new(3);
    for h in [9u64, 1, 8, 2, 7, 3] {
        a.add_hash(h);
    }
    let mut b = Sketch::new(3);
    for h in [3u64, 7, 2, 8, 1, 9] {
        b.add_hash(h);
    }
    assert_eq!(a.retained(), vec![1, 2, 3]);
    assert_eq!(b.retained(), vec![1, 2, 3]);
    assert_eq!(a.estimate(), b.estimate());
}

#[test]
fn retained_are_the_smallest_hashes_seen() {
    let words: Vec<String> = (0..200u32).map(|i| format!("entry {}", i)).collect();
    let mut sketch = Sketch::new(10);
    let mut all: Vec<u64> = Vec::new();
    for w in words.iter() {
        sketch.add(w);
        all.push(std_hash(w));
    }
    all.sort();
    all.dedup();
    all.truncate(10);
    assert_eq!(sketch.retained(), all);
}

#[test]
fn width_one_keeps_the_smallest_and_estimates_zero() {
    let mut sketch = Sketch::new(1);
    assert_eq!(sketch.estimate(), None);
    let hashes = [40u64, 90, 15, 15, 60, 3, 77];
    let least = [40u64, 40, 15, 15, 15, 3, 3];
    for (h, m) in hashes.iter().zip(least.iter()) {
        sketch.add_hash(*h);
        assert_eq!(sketch.retained(), vec![*m]);
        assert_eq!(sketch.estimate(), Some(0));
    }
    assert_eq!(sketch.total_adds(), 7);
}

#[test]
fn width_one_on_values() {
    let mut sketch = Sketch::new(1);
    let mut least = u64::MAX;
    for i in 0..100u32 {
        let w = format!("v{}", i);
        sketch.add(&w);
        least = least.min(std_hash(&w));
        assert_eq!(sketch.retained(), vec![least]);
        assert_eq!(sketch.estimate(), Some(0));
    }
}

#[test]
fn hash_zero_is_retained_like_any_other() {
    let mut sketch = Sketch::new(2);
    sketch.add_hash(0);
    assert_eq!(sketch.retained(), vec![0]);
    assert_eq!(sketch.estimate(), Some(u64::MAX));
    sketch.add_hash(8);
    assert_eq!(sketch.retained(), vec![0, 8]);
    assert_eq!(sketch.estimate(), Some(exact_estimate(2, 8)));

    let mut narrow = Sketch::new(1);
    narrow.add_hash(0);
    assert_eq!(narrow.estimate(), Some(0));
}

#[test]
fn estimate_reads_the_largest_retained_hash() {
    let mut sketch = Sketch::new(32);
    sketch.add_hash(u64::MAX);
    assert_eq!(sketch.estimate(), Some(31));
    sketch.add_hash(u64::MAX / 2);
    assert_eq!(sketch.estimate(), Some(31));
    let mut full = Sketch::new(2);
    full.add_hash(u64::MAX);
    full.add_hash(u64::MAX / 2);
    full.add_hash(u64::MAX / 4);
    assert_eq!(full.retained(), vec![u64::MAX / 4, u64::MAX / 2]);
    assert_eq!(full.estimate(), Some(2));
}

#[test]
fn ten_thousand_distinct_values_are_estimated_within_the_band() {
    let trials = 20u32;
    let mut within = 0u32;
    for t in 0..trials {
        let mut sketch = Sketch::new(32);
        for i in 0..10_000u32 {
            sketch.add(&format!("trial {} value {}", t, i));
        }
        assert_eq!(sketch.retained().len(), 32);
        assert_eq!(sketch.total_adds(), 10_000);
        let estimate = sketch.estimate().unwrap() as f64;
        if estimate >= 7_000.0 && estimate <= 13_000.0 {
            within += 1;
        }
    }
    assert!(within >= 14, "only {} of {} trials within 30%", within, trials);
}
