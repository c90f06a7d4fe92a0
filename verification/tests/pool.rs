use sync_pool::bucket::BucketReport;
use sync_pool::pool::{PoolManager, PoolState, SyncPool, EXPANSION_CAP, POOL_SIZE};

#[derive(Debug, Default, PartialEq)]
struct Item {
    id: u64,
    marker: u8,
}

type Plain = SyncPool<u64, fn(&mut u64)>;

type Items = SyncPool<Item, fn(&mut Item)>;

fn set_marker(v: &mut Item) {
    v.marker = 0xA5;
}

fn clear_id(v: &mut Item) {
    v.id = 0;
}

fn levels(report: &Vec<BucketReport>) -> Vec<usize> {
    let mut out = Vec::new();
    for r in report.iter() {
        assert!(!r.locked);
        out.push(r.len);
    }
    out
}

fn held(report: &Vec<BucketReport>) -> usize {
    let mut sum = 0;
    for r in report.iter() {
        sum += r.len;
    }
    sum
}

#[test]
fn constants() {
    assert_eq!(POOL_SIZE, 8);
    assert_eq!(EXPANSION_CAP, 512);
}

#[test]
fn new_pool_has_eight_full_buckets() {
    let pool: Plain = SyncPool::new();
    assert_eq!(levels(&pool.debug()), vec![32; 8]);
    assert_eq!(pool.fault_count(), 0);
    assert!(!pool.expansion_enabled());
}

#[test]
fn default_pool_is_a_new_pool() {
    let pool: Plain = Default::default();
    assert_eq!(levels(&pool.debug()), vec![32; 8]);
    assert_eq!(pool.fault_count(), 0);
    assert!(!pool.expansion_enabled());
}

#[test]
fn with_size_one_still_yields_a_bucket() {
    let pool: Plain = SyncPool::with_size(1);
    assert_eq!(levels(&pool.debug()), vec![32]);
}

#[test]
fn with_size_rounds_down_to_whole_buckets() {
    let pool: Plain = SyncPool::with_size(0);
    assert_eq!(pool.debug().len(), 1);
    let pool: Plain = SyncPool::with_size(31);
    assert_eq!(pool.debug().len(), 1);
    let pool: Plain = SyncPool::with_size(32);
    assert_eq!(pool.debug().len(), 1);
    let pool: Plain = SyncPool::with_size(63);
    assert_eq!(pool.debug().len(), 1);
    let pool: Plain = SyncPool::with_size(64);
    assert_eq!(pool.debug().len(), 2);
    let pool: Plain = SyncPool::with_size(100);
    assert_eq!(levels(&pool.debug()), vec![32, 32, 32]);
    let pool: Plain = SyncPool::with_size(256);
    assert_eq!(pool.debug().len(), 8);
}

#[test]
fn get_takes_from_the_cursor_bucket() {
    let mut pool: Plain = SyncPool::new();
    assert_eq!(pool.get(), 0);
    assert_eq!(levels(&pool.debug()), vec![31, 32, 32, 32, 32, 32, 32, 32]);
    assert_eq!(pool.fault_count(), 0);
}

#[test]
fn get_moves_forward_to_the_next_bucket_with_a_value() {
    let mut pool: Plain = SyncPool::new();
    for _ in 0..32 {
        pool.get();
    }
    assert_eq!(levels(&pool.debug()), vec![0, 32, 32, 32, 32, 32, 32, 32]);
    pool.get();
    assert_eq!(levels(&pool.debug()), vec![0, 31, 32, 32, 32, 32, 32, 32]);
    assert_eq!(pool.fault_count(), 0);
    // the cursor now names bucket 1: a value that comes back lands there
    pool.put(5);
    assert_eq!(levels(&pool.debug()), vec![0, 32, 32, 32, 32, 32, 32, 32]);
    // bucket 1 is full: the next value goes one bucket backward
    pool.put(6);
    assert_eq!(levels(&pool.debug()), vec![1, 32, 32, 32, 32, 32, 32, 32]);
    assert_eq!(pool.get(), 6);
    assert_eq!(pool.get(), 5);
}

#[test]
fn put_then_get_returns_the_same_value() {
    let mut pool: Plain = SyncPool::new();
    let v = pool.get();
    assert_eq!(v, 0);
    pool.put(41);
    assert_eq!(levels(&pool.debug()), vec![32; 8]);
    assert_eq!(pool.get(), 41);
    pool.put(v);
    assert_eq!(levels(&pool.debug()), vec![32; 8]);
    assert_eq!(pool.fault_count(), 0);
}

#[test]
fn get_on_empty_pool_returns_default_and_counts_one_fault() {
    let mut pool: Items = SyncPool::with_size(32);
    for _ in 0..32 {
        pool.get();
    }
    assert_eq!(levels(&pool.debug()), vec![0]);
    assert_eq!(pool.fault_count(), 0);
    assert_eq!(pool.get(), Item::default());
    assert_eq!(pool.fault_count(), 1);
    assert_eq!(pool.get(), Item::default());
    assert_eq!(pool.fault_count(), 2);
    assert_eq!(levels(&pool.debug()), vec![0]);
}

#[test]
fn put_on_full_pool_drops_the_value() {
    let mut pool: Plain = SyncPool::new();
    pool.put(99);
    assert_eq!(levels(&pool.debug()), vec![32; 8]);
    for _ in 0..256 {
        assert_eq!(pool.get(), 0);
    }
    assert_eq!(pool.fault_count(), 0);
}

#[test]
fn get_examines_half_of_the_ring() {
    // two buckets: one probe; bucket 1 is never reached from bucket 0
    let mut pool: Plain = SyncPool::with_size(64);
    for _ in 0..32 {
        pool.get();
    }
    assert_eq!(levels(&pool.debug()), vec![0, 32]);
    assert_eq!(pool.fault_count(), 0);
    pool.get();
    assert_eq!(pool.fault_count(), 1);
    assert_eq!(levels(&pool.debug()), vec![0, 32]);
    // four buckets: two probes
    let mut pool: Plain = SyncPool::with_size(128);
    for _ in 0..33 {
        pool.get();
    }
    assert_eq!(levels(&pool.debug()), vec![0, 31, 32, 32]);
    assert_eq!(pool.fault_count(), 0);
}

#[test]
fn put_examines_half_of_the_ring_backward() {
    let mut pool: Plain = SyncPool::with_size(128);
    // empty buckets 0 and 1; the cursor ends at bucket 1
    for _ in 0..64 {
        pool.get();
    }
    assert_eq!(levels(&pool.debug()), vec![0, 0, 32, 32]);
    for i in 0..32 {
        pool.put(i);
    }
    assert_eq!(levels(&pool.debug()), vec![0, 32, 32, 32]);
    pool.put(100);
    assert_eq!(levels(&pool.debug()), vec![1, 32, 32, 32]);
    for i in 0..31 {
        pool.put(i);
    }
    assert_eq!(levels(&pool.debug()), vec![32, 32, 32, 32]);
    // cursor at bucket 0: the probes are bucket 0 and bucket 3, both full
    pool.put(7);
    assert_eq!(levels(&pool.debug()), vec![32, 32, 32, 32]);
    assert_eq!(pool.get(), 30);
}

#[test]
fn drain_and_refill() {
    let mut pool: Items = SyncPool::new();
    assert_eq!(held(&pool.debug()), 256);
    for _ in 0..256 {
        assert_eq!(pool.get(), Item::default());
    }
    assert_eq!(pool.fault_count(), 0);
    assert_eq!(held(&pool.debug()), 0);
    assert_eq!(pool.get(), Item::default());
    assert_eq!(pool.fault_count(), 1);
    for id in 1..=256u64 {
        pool.put(Item { id, marker: 0 });
        assert_eq!(held(&pool.debug()), id as usize);
    }
    assert_eq!(levels(&pool.debug()), vec![32; 8]);
    pool.put(Item { id: 257, marker: 0 });
    assert_eq!(levels(&pool.debug()), vec![32; 8]);
    let mut seen = vec![false; 258];
    for _ in 0..256 {
        let item = pool.get();
        assert!(item.id >= 1 && item.id <= 256);
        assert!(!seen[item.id as usize]);
        seen[item.id as usize] = true;
    }
    assert_eq!(pool.fault_count(), 1);
    assert_eq!(held(&pool.debug()), 0);
}

#[test]
fn reset_hook_invocation() {
    let mut pool: Items = SyncPool::new();
    pool.reset_handle(set_marker);
    let got = pool.get();
    assert_eq!(got.marker, 0);
    pool.put(Item { id: 3, marker: 0 });
    let back = pool.get();
    assert_eq!(back.marker, 0xA5);
    assert_eq!(back.id, 3);
}

#[test]
fn without_a_hook_values_come_back_untouched() {
    let mut pool: Items = SyncPool::new();
    pool.get();
    pool.put(Item { id: 3, marker: 9 });
    assert_eq!(pool.get(), Item { id: 3, marker: 9 });
}

#[test]
fn a_new_hook_replaces_the_old_one() {
    let mut pool: Items = SyncPool::new();
    pool.reset_handle(set_marker);
    pool.reset_handle(clear_id);
    pool.get();
    pool.put(Item { id: 3, marker: 9 });
    assert_eq!(pool.get(), Item { id: 0, marker: 9 });
}

#[test]
fn allow_expansion_is_idempotent() {
    let mut pool: Plain = SyncPool::new();
    assert!(!pool.expansion_enabled());
    pool.allow_expansion(false);
    assert!(!pool.expansion_enabled());
    pool.allow_expansion(true);
    assert!(pool.expansion_enabled());
    pool.allow_expansion(true);
    assert!(pool.expansion_enabled());
    pool.allow_expansion(false);
    assert!(!pool.expansion_enabled());
    pool.allow_expansion(false);
    assert!(!pool.expansion_enabled());
    assert_eq!(levels(&pool.debug()), vec![32; 8]);
    assert_eq!(pool.fault_count(), 0);
}

#[test]
fn expansion_disabled() {
    let mut pool: Plain = SyncPool::new();
    pool.allow_expansion(false);
    assert!(!pool.expand(8, true));
    assert_eq!(levels(&pool.debug()), vec![32; 8]);
    let mut fresh: Plain = SyncPool::new();
    assert!(!fresh.expand(8, false));
    assert_eq!(fresh.debug().len(), 8);
}

#[test]
fn expand_appends_full_buckets_and_resets_faults() {
    let mut pool: Plain = SyncPool::with_size(32);
    for _ in 0..34 {
        pool.get();
    }
    assert_eq!(pool.fault_count(), 2);
    pool.allow_expansion(true);
    assert!(pool.expand(3, true));
    assert_eq!(levels(&pool.debug()), vec![0, 32, 32, 32]);
    assert_eq!(pool.fault_count(), 0);
    assert!(pool.expansion_enabled());
    // four buckets: get examines bucket 0 and bucket 1
    assert_eq!(pool.get(), 0);
    assert_eq!(levels(&pool.debug()), vec![0, 31, 32, 32]);
    assert_eq!(pool.fault_count(), 0);
}

#[test]
fn expand_by_nothing_still_resets_faults() {
    let mut pool: Plain = SyncPool::with_size(32);
    for _ in 0..33 {
        pool.get();
    }
    assert_eq!(pool.fault_count(), 1);
    pool.allow_expansion(true);
    assert!(pool.expand(0, false));
    assert_eq!(levels(&pool.debug()), vec![0]);
    assert_eq!(pool.fault_count(), 0);
}

#[test]
fn expand_during_traffic() {
    let mut pool: Items = SyncPool::new();
    pool.allow_expansion(true);
    let mut out = Vec::new();
    for round in 0..8u64 {
        for worker in 0..8u64 {
            let mut item = pool.get();
            item.id = round * 8 + worker;
            out.push(item);
        }
        for _ in 0..4 {
            let item = out.pop().unwrap();
            pool.put(item);
        }
    }
    let before = pool.debug().len();
    assert!(pool.expand(8, true));
    assert_eq!(pool.debug().len(), before + 8);
    assert_eq!(pool.fault_count(), 0);
    while let Some(item) = out.pop() {
        pool.put(item);
    }
    assert_eq!(held(&pool.debug()), 256 + 8 * 32);
}

#[test]
fn expand_without_blocking_on_a_pool_at_rest() {
    let mut pool: Plain = SyncPool::new();
    pool.allow_expansion(true);
    assert!(pool.expand(8, false));
    assert_eq!(levels(&pool.debug()), vec![32; 16]);
    // the barrier is down again: operations go on
    assert_eq!(pool.get(), 0);
    pool.put(1);
    assert!(pool.expand(1, false));
    assert_eq!(pool.debug().len(), 17);
}

#[test]
fn expand_is_a_no_op_beyond_the_cap() {
    let mut pool: Plain = SyncPool::with_size(512 * 32);
    assert_eq!(pool.debug().len(), 512);
    pool.allow_expansion(true);
    // 512 buckets are not more than the cap: the pool grows once more
    assert!(pool.expand(1, true));
    assert_eq!(pool.debug().len(), 513);
    assert!(!pool.expand(1, true));
    assert!(!pool.expand(8, false));
    assert_eq!(pool.debug().len(), 513);
    let mut big: Plain = SyncPool::with_size(513 * 32);
    big.allow_expansion(true);
    for _ in 0..3 {
        big.get();
    }
    assert!(!big.expand(4, true));
    assert_eq!(big.debug().len(), 513);
    assert_eq!(held(&big.debug()), 513 * 32 - 3);
}

#[test]
fn failed_expand_keeps_the_fault_count() {
    let mut pool: Plain = SyncPool::with_size(32);
    for _ in 0..35 {
        pool.get();
    }
    assert_eq!(pool.fault_count(), 3);
    assert!(!pool.expand(2, true));
    assert_eq!(pool.fault_count(), 3);
    assert_eq!(levels(&pool.debug()), vec![0]);
}

#[test]
fn fault_count_never_goes_down_without_expansion() {
    let mut pool: Plain = SyncPool::with_size(64);
    let mut last = 0;
    for step in 0..200u64 {
        if step % 3 == 2 {
            pool.put(step);
        } else {
            pool.get();
        }
        let now = pool.fault_count();
        assert!(now >= last);
        last = now;
    }
    assert!(last > 0);
}

#[test]
fn interleaved_workers_keep_the_held_count() {
    let mut pool: Items = SyncPool::with_size(64);
    let initial = held(&pool.debug());
    assert_eq!(initial, 64);
    let mut next_id = 1u64;
    for _ in 0..10_000 {
        let mut in_hand: Vec<Item> = Vec::new();
        for _ in 0..16 {
            let mut item = pool.get();
            for other in in_hand.iter() {
                assert!(item.id == 0 || other.id != item.id);
            }
            if item.id == 0 {
                item.id = next_id;
                next_id += 1;
            }
            in_hand.push(item);
        }
        while let Some(item) = in_hand.pop() {
            pool.put(item);
        }
        assert_eq!(held(&pool.debug()), initial);
    }
    assert_eq!(pool.fault_count(), 0);
}

#[test]
fn get_put_pairs_keep_the_pool_full() {
    let mut pool: Plain = SyncPool::with_size(64);
    for _ in 0..16 {
        for _ in 0..10_000 {
            let v = pool.get();
            pool.put(v);
        }
    }
    assert_eq!(levels(&pool.debug()), vec![32, 32]);
    assert_eq!(pool.fault_count(), 0);
}
