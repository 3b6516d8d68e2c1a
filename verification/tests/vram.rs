use bubble_simulation::gpu::vram::{lattice_budget, query, Heap, HeapBudget, VramInfo};

#[test]
fn available_prefers_the_measured_budget() {
    let info = VramInfo {
        capacity: 24_000_000_000,
        budget: Some(23_000_000_000),
        used: Some(3_000_000_000),
    };
    assert_eq!(info.available(), 20_000_000_000);
    assert!(info.available_is_measured());
}

#[test]
fn available_falls_back_to_capacity_when_unreported() {
    let info = VramInfo { capacity: 8_000_000_000, budget: None, used: None };
    assert_eq!(info.available(), 8_000_000_000);
    assert!(!info.available_is_measured());
}

/// Shrinking must always be possible: the memory the running lattice holds
/// is counted as used, but it is released before the new one is allocated.
#[test]
fn budget_credits_back_the_current_lattice() {
    // 1 GB free, but the running lattice is holding 10 GB.
    let budget = lattice_budget(1_000_000_000, 10_000_000_000);
    assert!(
        budget > 9_000_000_000,
        "a 10 GB lattice must be able to shrink to, say, 2 GB; got {budget}"
    );
}

#[test]
fn budget_keeps_headroom() {
    assert_eq!(lattice_budget(1_000, 0), 850);
}

/// Drivers can report usage above budget under pressure; that must clamp to
/// zero rather than wrapping around to a huge number.
#[test]
fn over_budget_saturates_at_zero() {
    let info = VramInfo {
        capacity: 8_000_000_000,
        budget: Some(7_000_000_000),
        used: Some(7_500_000_000),
    };
    assert_eq!(info.available(), 0);
}

/// The share is that of double precision, to the byte.
#[test]
fn budget_is_the_share_in_double_precision() {
    let check = |a: u64, b: u64| {
        let expected = ((a.saturating_add(b) as f64) * 0.85) as u64;
        assert_eq!(lattice_budget(a, b), expected, "{a} + {b}");
    };
    let mut x: u64 = 7;
    for _ in 0..2000 {
        x = x.wrapping_mul(6364136223846793005).wrapping_add(1442695040888963407);
        check(x, 0);
        check(x >> 11, x >> 3);
        check(x >> 40, 0);
        check(x, x);
    }
    for n in 0..200u64 {
        check(n, 0);
        check(u64::MAX - n, 0);
        check((1 << 53) + n, 0);
    }
}

fn heap(device_local: bool, size: u64) -> Heap {
    Heap { device_local, size }
}

#[test]
fn the_largest_local_heap_is_the_memory() {
    let heaps = vec![heap(true, 256), heap(false, 9000), heap(true, 4000), heap(true, 4000)];
    let info = query(&heaps, None).unwrap();
    assert_eq!(info, VramInfo { capacity: 4000, budget: None, used: None });
    let budgets: Vec<HeapBudget> =
        (1..5).map(|k| HeapBudget { budget: 100 * k, used: 10 * k }).collect();
    let info = query(&heaps, Some(&budgets)).unwrap();
    assert_eq!(info, VramInfo { capacity: 4000, budget: Some(300), used: Some(30) });
}

#[test]
fn a_zero_budget_is_not_a_report() {
    let heaps = vec![heap(true, 4000)];
    let budgets = vec![HeapBudget { budget: 0, used: 17 }];
    let info = query(&heaps, Some(&budgets)).unwrap();
    assert_eq!(info, VramInfo { capacity: 4000, budget: None, used: None });
}

#[test]
fn without_local_memory_nothing_is_known() {
    assert!(query(&vec![], None).is_none());
    assert!(query(&vec![heap(false, 1 << 40)], None).is_none());
    assert!(query(&vec![heap(true, 0)], None).is_none());
}
