use sync_pool::barrier::{VisitorBarrier, DRAIN_ATTEMPTS, DRAIN_PAUSE, EXCLUSIVE, IDLE};

#[test]
fn sentinels() {
    assert_eq!(EXCLUSIVE, 0);
    assert_eq!(IDLE, 1);
    assert_eq!(DRAIN_ATTEMPTS, 8);
    assert_eq!(DRAIN_PAUSE, 2);
}

#[test]
fn new_barrier_is_idle() {
    let b = VisitorBarrier::new();
    assert_eq!(b.visitor_count(), 1);
    assert!(!b.is_raised());
}

#[test]
fn register_and_deregister_count_visitors() {
    let mut b = VisitorBarrier::new();
    b.register();
    assert_eq!(b.visitor_count(), 2);
    b.register();
    b.register();
    assert_eq!(b.visitor_count(), 4);
    b.deregister();
    assert_eq!(b.visitor_count(), 3);
    b.deregister();
    b.deregister();
    assert_eq!(b.visitor_count(), 1);
    assert!(!b.is_raised());
}

#[test]
fn second_writer_is_turned_away() {
    let mut b = VisitorBarrier::new();
    assert!(b.raise());
    assert!(b.is_raised());
    assert!(!b.raise());
    assert!(b.is_raised());
    assert_eq!(b.visitor_count(), 1);
}

#[test]
fn drain_takes_an_idle_counter() {
    let mut b = VisitorBarrier::new();
    assert!(b.raise());
    assert!(b.drain(true));
    assert_eq!(b.visitor_count(), 0);
    assert!(b.is_raised());
    b.lower();
    assert_eq!(b.visitor_count(), 1);
    assert!(!b.is_raised());
}

#[test]
fn drain_without_blocking_gives_up_while_visitors_stay() {
    let mut b = VisitorBarrier::new();
    b.register();
    assert!(b.raise());
    assert!(!b.drain(false));
    assert_eq!(b.visitor_count(), 2);
    assert!(b.is_raised());
    b.deregister();
    assert!(b.drain(false));
    assert_eq!(b.visitor_count(), 0);
    b.lower();
    assert_eq!(b.visitor_count(), 1);
    assert!(!b.is_raised());
}

#[test]
fn lower_clears_the_barrier_after_a_failed_drain() {
    let mut b = VisitorBarrier::new();
    b.register();
    assert!(b.raise());
    assert!(!b.drain(false));
    b.lower();
    assert!(!b.is_raised());
    assert_eq!(b.visitor_count(), 1);
}
