//! The handoff to a worker.

use mininet::queue::{Handoff, Queue, SlotState};

#[test]
fn one_producer_pops_in_order() {
    let mut q = Queue::new();
    assert_eq!(q.pop(), None);
    for i in 1..=64 {
        q.push(i);
    }
    for i in 1..=64 {
        assert_eq!(q.pop(), Some(i));
    }
    assert_eq!(q.pop(), None);
    q.push(7);
    assert_eq!(q.pop(), Some(7));
    assert_eq!(q.pop(), None);
}

/// Four producers, each held up between its two stores for a while, and one
/// consumer, in an order that looks like none.
#[test]
fn every_push_comes_out_once() {
    const PRODUCERS: usize = 4;
    const EACH: usize = 4000;
    let total = PRODUCERS * EACH;
    let mut q = Queue::new();
    let mut sent = [0usize; PRODUCERS];
    let mut held = [None; PRODUCERS];
    let mut seen = vec![false; total + 1];
    let mut last = [0usize; PRODUCERS];
    let (mut got, mut nothing) = (0, 0);
    let mut dice = 12345u32;
    while got < total {
        dice = dice.wrapping_mul(1664525).wrapping_add(1013904223);
        let who = (dice >> 16) as usize % (PRODUCERS + 2);
        if who < PRODUCERS {
            match held[who].take() {
                Some(link) => q.finish_push(link),
                None => {
                    if sent[who] < EACH {
                        held[who] = Some(q.begin_push(who * EACH + sent[who] + 1));
                        sent[who] += 1;
                    }
                }
            }
        } else {
            match q.pop() {
                Some(id) => {
                    assert!(id >= 1 && id <= total && !seen[id]);
                    seen[id] = true;
                    let p = (id - 1) / EACH;
                    assert!(id > last[p]);
                    last[p] = id;
                    got += 1;
                }
                None => nothing += 1,
            }
        }
    }
    assert!(nothing > 0);
    assert_eq!(q.pop(), None);
}

#[test]
fn an_unfinished_push_holds_back_what_follows() {
    let mut q = Queue::new();
    q.push(1);
    let held = q.begin_push(2);
    q.push(3);
    assert_eq!(q.pop(), None);
    q.finish_push(held);
    assert_eq!(q.pop(), Some(1));
    assert_eq!(q.pop(), Some(2));
    assert_eq!(q.pop(), Some(3));
    assert_eq!(q.pop(), None);
}

#[test]
fn handoff_order() {
    let mut steps = Vec::new();
    let mut h = Handoff::Publish;
    while h != Handoff::Done {
        steps.push((h, h.stores()));
        h = h.next(true);
    }
    assert_eq!(
        steps,
        [
            (Handoff::Publish, Some(SlotState::Published)),
            (Handoff::Wake, None),
            (Handoff::Release, Some(SlotState::Released)),
        ]
    );
    assert_eq!(Handoff::Publish.next(false), Handoff::Release);
    assert_eq!(SlotState::Pending.code(), 0);
    assert_eq!(SlotState::Published.code(), 1);
    assert_eq!(SlotState::Released.code(), 2);
}
