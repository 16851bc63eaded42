use distinct_sketch::{HyperLogLog, SketchError};

const SCALE: f64 = 18446744073709551616.0;

fn occupied(h: &HyperLogLog) -> usize {
    h.registers().len() - h.zero_count()
}

fn alpha(p: u8) -> f64 {
    match p {
        4 => 0.673,
        5 => 0.697,
        6 => 0.709,
        _ => 0.7213 / (1.0 + 1.079 / (1u64 << p) as f64),
    }
}

/// The raw HyperLogLog estimate `alpha * m^2 / sum`.
fn raw_estimate(h: &HyperLogLog) -> f64 {
    let m = h.registers().len() as f64;
    alpha(h.precision()) * m * m / (h.scaled_sum() as f64 / SCALE)
}

/// The state the estimate is computed from.
fn estimate_inputs(h: &HyperLogLog) -> (u8, usize, u128) {
    (h.precision(), h.zero_count(), h.scaled_sum())
}

#[test]
fn hyperloglog_test_simple() {
    let mut hll = HyperLogLog::new(408, 100_000).unwrap();
    assert_eq!(hll.precision(), 16);
    let keys = ["test1", "test2", "test3", "test2", "test2", "test2"];
    for k in &keys {
        hll.push(k);
    }
    assert_eq!(occupied(&hll), 3);
    assert!(!hll.is_empty());
    hll.clear();
    assert!(hll.is_empty());
    assert_eq!(hll.zero_count(), hll.registers().len());
}

#[test]
fn hyperloglog_test_merge() {
    let mut hll = HyperLogLog::new(408, 100_000).unwrap();
    let keys = ["test1", "test2", "test3", "test2", "test2", "test2"];
    for k in &keys {
        hll.push(k);
    }
    assert_eq!(occupied(&hll), 3);

    let mut hll2 = HyperLogLog::new_from(&hll);
    let keys2 = ["test3", "test4", "test4", "test4", "test4", "test1"];
    for k in &keys2 {
        hll2.push(k);
    }
    assert_eq!(occupied(&hll2), 3);

    hll.union(&hll2).unwrap();
    assert_eq!(occupied(&hll), 4);
}

#[test]
fn push() {
    let actual = 100_000.0;
    let p = 0.05;
    let mut hll = HyperLogLog::new(5, 100).unwrap();
    for i in 0..100_000usize {
        hll.push(&i);
    }
    assert_eq!(hll.zero_count(), 0);
    let len = raw_estimate(&hll);
    assert!(len > (actual - (actual * p * 3.0)));
    assert!(len < (actual + (actual * p * 3.0)));
}

#[test]
fn union() {
    let actual = 100_0000;
    let mut hll1 = HyperLogLog::new_with_counters(5, 100).unwrap();
    for i in 0..actual {
        hll1.push(&i);
    }
    let mut hll2 = HyperLogLog::new_with_counters(5, 100).unwrap();
    for i in actual..actual * 2 {
        hll2.push(&i);
    }
    let before: Vec<u8> = hll1.registers().clone();
    hll1.union(&hll2).unwrap();
    for i in 0..before.len() {
        assert_eq!(hll1.registers()[i], before[i].max(hll2.registers()[i]));
    }
}

#[test]
fn compare_with_counters() {
    let mut hll1 = HyperLogLog::new_with_counters(408, 100_000).unwrap();
    let mut hll2 = HyperLogLog::new_with_counters(408, 100_000).unwrap();
    hll1.push("test");
    hll2.push("test");
    assert!(hll1 == hll2);
    hll2.push("test");
    assert!(hll1 != hll2);
}

#[test]
fn compare_with_counters_union() {
    let mut hll1 = HyperLogLog::new_with_counters(408, 100_000).unwrap();
    let mut hll2 = HyperLogLog::new_with_counters(408, 100_000).unwrap();
    hll1.push("test");
    hll2.push("test");
    hll1.union(&hll2).unwrap();
    let count = estimate_inputs(&hll1);
    hll1.delete("test").unwrap();
    // after the first delete the estimate does not change
    assert_eq!(count, estimate_inputs(&hll1));
    hll1.delete("test").unwrap();
    // after the second the sketch is empty again
    assert!(hll1.is_empty());
    assert_eq!(hll1.zero_count(), hll1.registers().len());
}

#[test]
fn delete() {
    let mut hll = HyperLogLog::new_with_counters(408, 100_000).unwrap();
    for _i in 0..2 {
        hll.push("test");
    }
    let count = estimate_inputs(&hll);
    hll.delete("test").unwrap();
    assert_eq!(count, estimate_inputs(&hll));
    hll.delete("test").unwrap();
    assert!(hll.is_empty());
    assert_eq!(hll.zero_count(), hll.registers().len());
}

#[test]
fn clear_matches_fresh_sketch() {
    let mut hll = HyperLogLog::new_with_counters(408, 100_000).unwrap();
    for i in 0..1000u32 {
        hll.push(&i);
    }
    hll.clear();
    let fresh = HyperLogLog::new_with_counters(408, 100_000).unwrap();
    assert_eq!(estimate_inputs(&hll), estimate_inputs(&fresh));
    assert_eq!(hll.registers(), fresh.registers());
    assert_eq!(hll.counters(), fresh.counters());
    hll.clear();
    assert_eq!(hll.counters(), fresh.counters());
    assert_eq!(hll.scaled_sum(), 65536u128 << 64);
}

#[test]
fn union_is_commutative_and_absorbs() {
    let mut a = HyperLogLog::new(5, 100).unwrap();
    let mut b = HyperLogLog::new(5, 100).unwrap();
    for i in 0..300u32 {
        a.push(&i);
    }
    for i in 200..900u32 {
        b.push(&i);
    }
    let mut ab = HyperLogLog::new_from(&a);
    ab.union(&a).unwrap();
    ab.union(&b).unwrap();
    let mut ba = HyperLogLog::new_from(&b);
    ba.union(&b).unwrap();
    ba.union(&a).unwrap();
    assert_eq!(ab.registers(), ba.registers());
    assert_eq!(estimate_inputs(&ab), estimate_inputs(&ba));

    let copy = a.registers().clone();
    let twin = a.registers().clone();
    let mut again = HyperLogLog::new_from(&a);
    again.union(&a).unwrap();
    again.union(&a).unwrap();
    assert_eq!(again.registers(), &copy);
    assert_eq!(&twin, &copy);
}

#[test]
fn caches_match_registers() {
    let mut hll = HyperLogLog::new_with_counters(1, 20).unwrap();
    for i in 0..5000u64 {
        hll.push(&i);
        if i % 3 == 0 {
            hll.delete(&(i / 2)).unwrap();
        }
    }
    let p = hll.precision();
    let regs = hll.registers();
    let zeros = regs.iter().filter(|r| **r == 0).count();
    let sum: u128 = regs.iter().map(|r| 1u128 << (64 - *r as u32)).sum();
    assert_eq!(hll.zero_count(), zeros);
    assert_eq!(hll.scaled_sum(), sum);
    let rows = hll.counters().as_ref().unwrap();
    for (i, r) in regs.iter().enumerate() {
        assert!(*r as u32 <= 65 - p as u32);
        let top = (1..rows[i].len()).rev().find(|j| rows[i][*j] > 0).unwrap_or(0);
        assert_eq!(*r as usize, top);
    }
}

#[test]
fn intersect_takes_register_minimum() {
    let mut a = HyperLogLog::new(5, 100).unwrap();
    let mut b = HyperLogLog::new(5, 100).unwrap();
    for i in 0..2000u32 {
        a.push(&i);
    }
    for i in 1000..1500u32 {
        b.push(&i);
    }
    let before = a.registers().clone();
    a.intersect(&b).unwrap();
    for i in 0..before.len() {
        assert_eq!(a.registers()[i], before[i].min(b.registers()[i]));
    }
    let zeros = a.registers().iter().filter(|r| **r == 0).count();
    assert_eq!(a.zero_count(), zeros);
}

#[test]
fn delete_without_counters_is_unsupported() {
    let mut hll = HyperLogLog::new(408, 100_000).unwrap();
    hll.push("test");
    let before = estimate_inputs(&hll);
    assert_eq!(hll.delete("test"), Err(SketchError::DeleteUnsupported));
    assert_eq!(estimate_inputs(&hll), before);
}

#[test]
fn combining_mismatched_sketches_fails() {
    let mut a = HyperLogLog::new(408, 100_000).unwrap();
    let b = HyperLogLog::new(5, 100).unwrap();
    let c = HyperLogLog::new_with_counters(408, 100_000).unwrap();
    assert_eq!(a.union(&b), Err(SketchError::Incompatible));
    assert_eq!(a.intersect(&b), Err(SketchError::Incompatible));
    assert_eq!(a.union(&c), Err(SketchError::Incompatible));
    assert_eq!(a.intersect(&c), Err(SketchError::Incompatible));
    assert!(a.is_empty());
}

#[test]
fn sketches_without_counters_are_never_equal() {
    let a = HyperLogLog::new(408, 100_000).unwrap();
    let b = HyperLogLog::new(408, 100_000).unwrap();
    assert!(a != b);
    assert!(a != a);
}

#[test]
fn push_hash_sets_selected_register() {
    let mut hll = HyperLogLog::new(1, 20).unwrap();
    let p = hll.precision();
    assert_eq!(p, 9);
    // index 5, tail 1: rho is 64 - p
    let x: u64 = (1u64 << p) | 5;
    hll.push_hash(x);
    assert_eq!(hll.registers()[5], 64 - p);
    assert_eq!(hll.zero_count(), 511);
    // a smaller rho never lowers a register
    hll.push_hash((u64::MAX << p) | 5);
    assert_eq!(hll.registers()[5], 64 - p);
    // a zero tail gives the largest rho
    hll.push_hash(7);
    assert_eq!(hll.registers()[7], 65 - p);
}

#[test]
fn delete_hash_lowers_register_to_next_counter() {
    let mut hll = HyperLogLog::new_with_counters(1, 20).unwrap();
    let p = hll.precision();
    let low: u64 = (u64::MAX << p) | 3; // rho 1
    let high: u64 = (1u64 << (p + 10)) | 3; // rho 54 - p
    hll.push_hash(low);
    hll.push_hash(high);
    assert_eq!(hll.registers()[3], 54 - p);
    hll.delete_hash(high).unwrap();
    assert_eq!(hll.registers()[3], 1);
    hll.delete_hash(low).unwrap();
    assert_eq!(hll.registers()[3], 0);
    assert!(hll.is_empty());
    assert_eq!(hll.scaled_sum(), 512u128 << 64);
    // deleting what is not there changes nothing
    hll.delete_hash(low).unwrap();
    assert!(hll.is_empty());
}

#[test]
fn parts_round_trip() {
    let mut hll = HyperLogLog::new_with_counters(5, 100).unwrap();
    for i in 0..3000u32 {
        hll.push(&i);
    }
    let rebuilt = HyperLogLog::from_parts(
        hll.precision(),
        hll.registers().clone(),
        hll.counters().clone(),
    )
    .unwrap();
    assert_eq!(estimate_inputs(&rebuilt), estimate_inputs(&hll));
    assert!(rebuilt == hll);
}

#[test]
fn malformed_parts_are_refused() {
    assert_eq!(
        HyperLogLog::from_parts(3, vec![0; 8], None).err(),
        Some(SketchError::Malformed)
    );
    assert_eq!(
        HyperLogLog::from_parts(4, vec![0; 15], None).err(),
        Some(SketchError::Malformed)
    );
    let mut regs = vec![0u8; 16];
    regs[2] = 62;
    assert_eq!(
        HyperLogLog::from_parts(4, regs.clone(), None).err(),
        Some(SketchError::Malformed)
    );
    regs[2] = 61;
    let h = HyperLogLog::from_parts(4, regs.clone(), None).unwrap();
    assert_eq!(h.zero_count(), 15);
    assert_eq!(h.scaled_sum(), (15u128 << 64) + (1u128 << 3));
    assert_eq!(
        HyperLogLog::from_parts(4, regs, Some(vec![vec![0; 61]; 16])).err(),
        Some(SketchError::Malformed)
    );
}

#[test]
fn intersect_adds_lowest_shared_counter() {
    let mut a = HyperLogLog::new_with_counters(1, 20).unwrap();
    let mut b = HyperLogLog::new_with_counters(1, 20).unwrap();
    let p = a.precision();
    let x: u64 = (1u64 << p) | 5; // register 5, rho 64 - p
    a.push_hash(x);
    b.push_hash(x);
    a.intersect(&b).unwrap();
    let rows = a.counters().as_ref().unwrap();
    assert_eq!(rows[5][(64 - p) as usize], 2);
    assert_eq!(a.registers()[5], 64 - p);
}
