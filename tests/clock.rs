use crdt_tree::Clock;
use std::cmp::Ordering;

#[test]
fn clock_new_defaults_counter_to_zero() {
    let c = Clock::new(7, None);
    assert_eq!(c.counter, 0);
    assert_eq!(*c.actor_id(), 7);
    let d = Clock::new(7, Some(5));
    assert_eq!(d.counter, 5);
}

#[test]
fn clock_inc_increments_only_the_counter() {
    let c = Clock::new(3, Some(9));
    assert_eq!(c.inc(), Clock::new(3, Some(10)));
    assert_eq!(c, Clock::new(3, Some(9)));
}

#[test]
fn clock_tick_advances_in_place() {
    let mut c = Clock::new(3, None);
    let t1 = c.tick();
    let t2 = c.tick();
    assert_eq!(t1, Clock::new(3, Some(1)));
    assert_eq!(t2, Clock::new(3, Some(2)));
    assert_eq!(c, t2);
}

#[test]
fn clock_merge_takes_larger_counter_keeps_actor() {
    let a = Clock::new(1, Some(4));
    let b = Clock::new(2, Some(9));
    assert_eq!(a.merge(&b), Clock::new(1, Some(9)));
    assert_eq!(b.merge(&a), Clock::new(2, Some(9)));
}

#[test]
fn clock_order_counter_then_actor() {
    let a = Clock::new(9, Some(1));
    let b = Clock::new(1, Some(2));
    let c = Clock::new(2, Some(2));
    assert!(a < b);
    assert!(b < c);
    assert!(a < c);
    assert_eq!(b.compare(&c), Ordering::Less);
    assert_eq!(c.compare(&b), Ordering::Greater);
    assert_eq!(c.compare(&c), Ordering::Equal);
    assert_eq!(a.partial_cmp(&b), Some(Ordering::Less));
    assert_eq!(a.cmp(&b), Ordering::Less);
}

#[test]
fn clock_total_order_on_samples() {
    let mut clocks = Vec::new();
    for actor in 0..4u64 {
        for counter in 0..4u64 {
            clocks.push(Clock::new(actor, Some(counter)));
        }
    }
    for a in &clocks {
        for b in &clocks {
            let ab = a.compare(b);
            let ba = b.compare(a);
            assert_eq!(ab, ba.reverse());
            assert_eq!(ab == Ordering::Equal, a == b);
            assert_eq!(ab, a.cmp(b));
            for c in &clocks {
                if a < b && b < c {
                    assert!(a < c);
                }
            }
        }
    }
}
