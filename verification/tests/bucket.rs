use sync_pool::bucket::{Bucket, GET_PATIENCE, PUT_PATIENCE, SLOT_CAP};

fn no_hook() -> Option<&'static fn(&mut u32)> {
    None
}

fn set_marker(v: &mut u32) {
    *v = 0xA5;
}

#[test]
fn slot_cap_is_thirty_two() {
    assert_eq!(SLOT_CAP, 32);
    assert_eq!(GET_PATIENCE, 4);
    assert_eq!(PUT_PATIENCE, 6);
}

#[test]
fn filled_bucket_holds_slot_cap_defaults() {
    let mut b: Bucket<u32> = Bucket::new(true);
    assert_eq!(b.len(), 32);
    assert!(!b.is_locked());
    assert!(b.try_acquire(true));
    for left in (0..32).rev() {
        assert_eq!(b.checkout(), Some(0));
        assert_eq!(b.len(), left);
    }
    b.unlock();
    assert!(!b.is_locked());
}

#[test]
fn empty_bucket_holds_nothing() {
    let b: Bucket<u32> = Bucket::new(false);
    assert_eq!(b.len(), 0);
    assert!(!b.is_locked());
}

#[test]
fn acquire_for_get_on_empty_bucket_is_unavailable_and_unlocked() {
    let mut b: Bucket<u32> = Bucket::new(false);
    assert!(!b.try_acquire(true));
    assert!(!b.is_locked());
    assert_eq!(b.len(), 0);
}

#[test]
fn acquire_for_put_on_full_bucket_is_unavailable_and_unlocked() {
    let mut b: Bucket<u32> = Bucket::new(true);
    assert!(!b.try_acquire(false));
    assert!(!b.is_locked());
    assert_eq!(b.len(), 32);
}

#[test]
fn acquire_for_put_on_empty_bucket_succeeds() {
    let mut b: Bucket<u32> = Bucket::new(false);
    assert!(b.try_acquire(false));
    assert!(b.is_locked());
}

#[test]
fn held_lock_makes_bucket_unavailable() {
    let mut b: Bucket<u32> = Bucket::new(true);
    assert!(b.try_acquire(true));
    assert!(b.is_locked());
    assert!(!b.try_acquire(true));
    assert!(!b.try_acquire(false));
    assert!(b.is_locked());
    assert_eq!(b.len(), 32);
    b.unlock();
    assert!(b.try_acquire(true));
}

#[test]
fn release_then_checkout_is_last_in_first_out() {
    let mut b: Bucket<u32> = Bucket::new(false);
    assert!(b.try_acquire(false));
    b.release(7, no_hook());
    b.release(8, no_hook());
    b.release(9, no_hook());
    assert_eq!(b.len(), 3);
    assert_eq!(b.checkout(), Some(9));
    assert_eq!(b.checkout(), Some(8));
    assert_eq!(b.len(), 1);
    b.release(10, no_hook());
    assert_eq!(b.checkout(), Some(10));
    assert_eq!(b.checkout(), Some(7));
    assert_eq!(b.len(), 0);
    b.unlock();
}

#[test]
fn release_runs_the_hook_first() {
    let mut b: Bucket<u32> = Bucket::new(false);
    assert!(b.try_acquire(false));
    let hook: fn(&mut u32) = set_marker;
    b.release(0, Some(&hook));
    b.release(1, no_hook());
    assert_eq!(b.checkout(), Some(1));
    assert_eq!(b.checkout(), Some(0xA5));
    b.unlock();
}

#[test]
fn bucket_fills_up_to_slot_cap() {
    let mut b: Bucket<u32> = Bucket::new(false);
    for i in 0..32u32 {
        assert!(b.try_acquire(false));
        b.release(i, no_hook());
        b.unlock();
    }
    assert_eq!(b.len(), 32);
    assert!(!b.try_acquire(false));
    assert!(b.try_acquire(true));
    assert_eq!(b.checkout(), Some(31));
    b.unlock();
    assert_eq!(b.len(), 31);
}

#[test]
fn debug_reports_level_and_lock() {
    let mut b: Bucket<u32> = Bucket::new(true);
    let r = b.debug();
    assert_eq!(r.len, 32);
    assert!(!r.locked);
    assert!(b.try_acquire(true));
    let _ = b.checkout();
    let r = b.debug();
    assert_eq!(r.len, 31);
    assert!(r.locked);
}
