use lazy_pool::{Allocation, LazyPool, Region, SlotId};

const SLOT: usize = 64 * 1024;
const BASE: usize = 0x10_000_0000;
const MAX: usize = 8;

fn full_pool() -> LazyPool {
    LazyPool::new((0..MAX).map(SlotId).collect(), MAX, SLOT, BASE)
}

fn alloc_all(pool: &mut LazyPool) -> Vec<usize> {
    let mut out = Vec::new();
    for _ in 0..MAX {
        let a = pool.allocate();
        assert_eq!(a.decommit, None);
        out.push(a.slot.0);
    }
    assert!(pool.is_empty());
    out
}

#[test]
fn cold_alloc_takes_a_clean_slot() {
    let mut pool = full_pool();
    let a = pool.allocate();
    assert_eq!(a, Allocation { slot: SlotId(7), decommit: None });
    // seven clean slots are left, and no range
    for _ in 0..7 {
        assert!(!pool.is_empty());
        assert_eq!(pool.allocate().decommit, None);
    }
    assert!(pool.is_empty());
}

#[test]
fn free_then_alloc_stays_lazy() {
    let mut pool = full_pool();
    let s = pool.allocate().slot;
    pool.free(s);
    let a = pool.allocate();
    assert_eq!(a.decommit, None);
    assert_ne!(a.slot, s);
}

#[test]
fn batched_decommit_of_one_range() {
    let mut pool = full_pool();
    alloc_all(&mut pool);
    for s in [3, 4, 2, 5, 1, 6, 0, 7] {
        pool.free(SlotId(s));
        assert!(!pool.is_empty());
    }
    let a = pool.allocate();
    assert_eq!(a.slot, SlotId(0));
    assert_eq!(a.decommit, Some(Region { address: BASE, length: 524288 }));
    // the rest of the range is clean, the last slot of it first
    for s in (1..8).rev() {
        assert_eq!(pool.allocate(), Allocation { slot: SlotId(s), decommit: None });
    }
    assert!(pool.is_empty());
}

#[test]
fn non_adjacent_frees_stay_apart() {
    let mut pool = full_pool();
    alloc_all(&mut pool);
    for s in [0, 2, 4, 6] {
        pool.free(SlotId(s));
    }
    let mut seen = Vec::new();
    for _ in 0..4 {
        let a = pool.allocate();
        let r = a.decommit.expect("a dirty slot is decommitted");
        assert_eq!(r.length, SLOT);
        assert_eq!(r.address, BASE + a.slot.0 * SLOT);
        seen.push(a.slot.0);
    }
    seen.sort();
    assert_eq!(seen, vec![0, 2, 4, 6]);
    assert!(pool.is_empty());
}

#[test]
fn two_neighbor_merge() {
    let mut pool = full_pool();
    alloc_all(&mut pool);
    pool.free(SlotId(0));
    pool.free(SlotId(2));
    pool.free(SlotId(1));
    let a = pool.allocate();
    assert_eq!(a.slot, SlotId(0));
    assert_eq!(a.decommit, Some(Region { address: BASE, length: 3 * SLOT }));
    assert_eq!(pool.allocate(), Allocation { slot: SlotId(2), decommit: None });
    assert_eq!(pool.allocate(), Allocation { slot: SlotId(1), decommit: None });
    assert!(pool.is_empty());
}

#[test]
fn two_neighbor_merge_keeps_end_index() {
    let mut pool = full_pool();
    alloc_all(&mut pool);
    pool.free(SlotId(1));
    pool.free(SlotId(3));
    pool.free(SlotId(2));
    // the merged range (1, 3) must still be found from its end
    pool.free(SlotId(4));
    let a = pool.allocate();
    assert_eq!(a.slot, SlotId(1));
    assert_eq!(a.decommit, Some(Region { address: BASE + SLOT, length: 4 * SLOT }));
}

#[test]
fn merge_with_right_neighbor() {
    let mut pool = full_pool();
    alloc_all(&mut pool);
    pool.free(SlotId(2));
    pool.free(SlotId(1));
    let a = pool.allocate();
    assert_eq!(a.slot, SlotId(1));
    assert_eq!(a.decommit, Some(Region { address: BASE + SLOT, length: 2 * SLOT }));
    assert_eq!(pool.allocate(), Allocation { slot: SlotId(2), decommit: None });
    assert!(pool.is_empty());
}

#[test]
fn merge_at_both_ends_of_the_bank() {
    let mut pool = full_pool();
    alloc_all(&mut pool);
    pool.free(SlotId(7));
    pool.free(SlotId(6));
    let a = pool.allocate();
    assert_eq!(a.slot, SlotId(6));
    assert_eq!(a.decommit, Some(Region { address: BASE + 6 * SLOT, length: 2 * SLOT }));
    pool.allocate();
    pool.free(SlotId(0));
    let b = pool.allocate();
    assert_eq!(b, Allocation { slot: SlotId(0), decommit: Some(Region { address: BASE, length: SLOT }) });
}

#[test]
fn refreshed_size_hint_picks_the_larger_range() {
    let mut pool = full_pool();
    alloc_all(&mut pool);
    pool.free(SlotId(0));
    pool.free(SlotId(4));
    pool.free(SlotId(5));
    // end - begin reaches 2, which has no bit of the mask: the hint is refreshed
    pool.free(SlotId(6));
    let a = pool.allocate();
    assert_eq!(a.slot, SlotId(4));
    assert_eq!(a.decommit, Some(Region { address: BASE + 4 * SLOT, length: 3 * SLOT }));
}

#[test]
fn empty_pool_is_empty() {
    let pool = LazyPool::new(Vec::new(), 4, SLOT, BASE);
    assert!(pool.is_empty());
}

#[test]
fn partial_initial_clean_set() {
    let mut pool = LazyPool::new(vec![SlotId(5), SlotId(2)], MAX, SLOT, BASE);
    assert_eq!(pool.allocate().slot, SlotId(2));
    assert_eq!(pool.allocate().slot, SlotId(5));
    assert!(pool.is_empty());
    pool.free(SlotId(5));
    assert!(!pool.is_empty());
    assert_eq!(
        pool.allocate(),
        Allocation { slot: SlotId(5), decommit: Some(Region { address: BASE + 5 * SLOT, length: SLOT }) }
    );
}

#[test]
fn full_drain_round_trip() {
    let mut pool = full_pool();
    alloc_all(&mut pool);
    for s in [5, 0, 7, 2, 1, 6, 3, 4] {
        pool.free(SlotId(s));
    }
    let mut seen = Vec::new();
    let mut bytes = 0;
    for _ in 0..MAX {
        assert!(!pool.is_empty());
        let a = pool.allocate();
        if let Some(r) = a.decommit {
            bytes += r.length;
        }
        seen.push(a.slot.0);
    }
    assert!(pool.is_empty());
    seen.sort();
    assert_eq!(seen, (0..MAX).collect::<Vec<_>>());
    assert_eq!(bytes, MAX * SLOT);
}

/// Drives the pool with a fixed pseudo-random run of operations and a mock
/// decommit that marks the slots of each region clean.
#[test]
fn mixed_run_hands_out_only_clean_slots() {
    let n = 32;
    let mut pool = LazyPool::new((0..n).map(SlotId).collect(), n, SLOT, BASE);
    let mut clean = vec![true; n];
    let mut out = vec![false; n];
    let mut seed: u64 = 12345;
    for _ in 0..2000 {
        seed = seed.wrapping_mul(6364136223846793005).wrapping_add(1442695040888963407);
        let pick = (seed >> 33) as usize % n;
        let n_out = out.iter().filter(|&&o| o).count();
        // an allocation has a candidate exactly when some slot is not out
        assert_eq!(pool.is_empty(), n_out == n);
        if pick % 2 == 0 && !pool.is_empty() {
            let a = pool.allocate();
            if let Some(r) = a.decommit {
                assert_eq!((r.address - BASE) % SLOT, 0);
                let first = (r.address - BASE) / SLOT;
                assert_eq!(first, a.slot.0);
                for s in first..first + r.length / SLOT {
                    assert!(!out[s]);
                    clean[s] = true;
                }
            }
            assert!(!out[a.slot.0], "handed out twice");
            assert!(clean[a.slot.0], "handed out dirty");
            out[a.slot.0] = true;
        } else if let Some(s) = (0..n).map(|k| (pick + k) % n).find(|&s| out[s]) {
            pool.free(SlotId(s));
            out[s] = false;
            clean[s] = false;
        }
    }
    // return everything, then all n slots can be had again
    for s in 0..n {
        if out[s] {
            pool.free(SlotId(s));
        }
    }
    for _ in 0..n {
        assert!(!pool.is_empty());
        pool.allocate();
    }
    assert!(pool.is_empty());
}
