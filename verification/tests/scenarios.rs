// End-to-end scenarios: recomputation counting under diff-suppression, a
// diamond-shaped graph, a long chain driven iteratively, deferred effects
// drained in order, and subscriber-list bookkeeping.

use reactive_graph::Observable;
use reactive_graph::ReactiveContext;

const AND: u64 = 0;
const INC: u64 = 1;
const DOUBLE: u64 = 2;
const SUM: u64 = 3;
const CONST7: u64 = 4;

fn arith(op: u64, vals: Vec<u64>) -> u64 {
    match op {
        AND => {
            if vals[0] == 1 && vals[1] == 1 {
                1
            } else {
                0
            }
        }
        INC => vals[0] + 1,
        DOUBLE => vals[0] * 2,
        SUM => vals[0] + vals[1],
        CONST7 => 7,
        _ => 0,
    }
}

#[test]
fn lock_recomputes_at_most_twice() {
    let mut ctx = ReactiveContext::new(arith);
    let b1 = ctx.new_signal(0u64);
    let b2 = ctx.new_signal(0u64);
    let lock = ctx.new_memo(vec![b1.reactive_entity(), b2.reactive_entity()], AND);
    assert_eq!(*ctx.read(lock), 0);
    let runs_after_build = ctx.recompute_count();

    ctx.send_signal(b1, 1);
    assert_eq!(*ctx.read(lock), 0);
    ctx.send_signal(b2, 1);
    assert_eq!(*ctx.read(lock), 1);
    // a hundred thousand equal-value writes trigger nothing
    for _ in 0..100_000 {
        ctx.send_signal(b1, 1);
    }
    assert_eq!(*ctx.read(lock), 1);
    assert_eq!(ctx.recompute_count(), runs_after_build + 2);
}

#[test]
fn value_preserving_update_recomputes_nothing() {
    let mut ctx = ReactiveContext::new(arith);
    let x = ctx.new_signal(5u64);
    let _m = ctx.new_memo(vec![x.reactive_entity()], INC);
    let runs = ctx.recompute_count();
    // write back the value the source already holds
    ctx.send_signal(x, 5);
    assert_eq!(ctx.recompute_count(), runs);
}

#[test]
fn diamond() {
    let mut ctx = ReactiveContext::new(arith);
    let x = ctx.new_signal(0u64);
    let a = ctx.new_memo(vec![x.reactive_entity()], INC);
    let b = ctx.new_memo(vec![x.reactive_entity()], DOUBLE);
    let sum = ctx.new_memo(vec![a.reactive_entity(), b.reactive_entity()], SUM);
    assert_eq!(*ctx.read(sum), 1);
    ctx.send_signal(x, 3);
    assert_eq!(*ctx.read(a), 4);
    assert_eq!(*ctx.read(b), 6);
    assert_eq!(*ctx.read(sum), 10);
}

#[test]
fn chain_of_one_thousand() {
    let mut ctx = ReactiveContext::new(arith);
    let n = ctx.new_signal(0u64);
    let mut last = ctx.new_memo(vec![n.reactive_entity()], INC);
    for _ in 1..1000 {
        last = ctx.new_memo(vec![last.reactive_entity()], INC);
    }
    assert_eq!(*ctx.read(last), 1000);
    ctx.send_signal(n, 1);
    assert_eq!(*ctx.read(last), 1001);
}

#[test]
fn chain_diff_suppression() {
    let mut ctx = ReactiveContext::new(arith);
    let n = ctx.new_signal(0u64);
    let mut last = ctx.new_memo(vec![n.reactive_entity()], INC);
    for _ in 1..100 {
        last = ctx.new_memo(vec![last.reactive_entity()], INC);
    }
    ctx.send_signal(n, 1);
    let runs = ctx.recompute_count();
    // writing the same value again recomputes not a single memo
    ctx.send_signal(n, 1);
    assert_eq!(ctx.recompute_count(), runs);
    assert_eq!(*ctx.read(last), 101);
}

#[test]
fn deferred_effects_in_order() {
    let mut ctx = ReactiveContext::new(arith);
    let s = ctx.new_signal(0u64);
    let _e = ctx.new_deferred_effect(s, 42);
    ctx.send_signal(s, 1);
    ctx.send_signal(s, 2);
    ctx.send_signal(s, 3);
    // nothing has run yet
    assert_eq!(ctx.pending_effect_count(), 3);
    let log: Vec<(u64, u64)> = Vec::new();
    let log = ctx.flush_effects(log, |mut log: Vec<(u64, u64)>, tag: u64, v: u64| {
        log.push((tag, v));
        log
    });
    assert_eq!(log, vec![(42, 1), (42, 2), (42, 3)]);
    assert_eq!(ctx.pending_effect_count(), 0);
}

#[test]
fn effect_batching_counts() {
    let mut ctx = ReactiveContext::new(arith);
    let s = ctx.new_signal(0u64);
    let _e = ctx.new_deferred_effect(s, 9);
    // alternating values queue one entry per write
    for k in 0..6u64 {
        ctx.send_signal(s, k % 2 + 1);
    }
    assert_eq!(ctx.pending_effect_count(), 6);
    let taken = ctx.flush_effects(0u64, |acc: u64, _tag: u64, _v: u64| acc + 1);
    assert_eq!(taken, 6);
    // equal values queue only the first change
    for _ in 0..6u64 {
        ctx.send_signal(s, 5);
    }
    assert_eq!(ctx.pending_effect_count(), 1);
}

#[test]
fn effect_on_memo_change() {
    let mut ctx = ReactiveContext::new(arith);
    let x = ctx.new_signal(0u64);
    let m = ctx.new_memo(vec![x.reactive_entity()], INC);
    let e = ctx.new_deferred_effect(m, 8);
    assert_eq!(e.get(&ctx), Some(8));
    assert_eq!(ctx.effect_system(e), Some(8));
    ctx.send_signal(x, 10);
    // the memo changed from 1 to 11, so one entry carrying 11 was queued
    let log: Vec<u64> = Vec::new();
    let log = ctx.flush_effects(log, |mut log: Vec<u64>, _tag: u64, v: u64| {
        log.push(v);
        log
    });
    assert_eq!(log, vec![11]);
}

#[test]
fn subscriber_lists_stay_exact() {
    let mut ctx = ReactiveContext::new(arith);
    let b1 = ctx.new_signal(0u64);
    let b2 = ctx.new_signal(0u64);
    let _m1 = ctx.new_memo(vec![b1.reactive_entity(), b2.reactive_entity()], AND);
    assert_eq!(ctx.subscriber_count(b1), 1);
    assert_eq!(ctx.subscriber_count(b2), 1);
    // recomputations rebuild the lists without duplicating entries
    ctx.send_signal(b1, 1);
    ctx.send_signal(b2, 1);
    ctx.send_signal(b1, 0);
    assert_eq!(ctx.subscriber_count(b1), 1);
    assert_eq!(ctx.subscriber_count(b2), 1);
    // a second reader appears exactly once
    let _m2 = ctx.new_memo(vec![b1.reactive_entity()], INC);
    assert_eq!(ctx.subscriber_count(b1), 2);
    // a memo declaring the same input twice subscribes once
    let _m3 = ctx.new_memo(vec![b2.reactive_entity(), b2.reactive_entity()], SUM);
    assert_eq!(ctx.subscriber_count(b2), 2);
}

#[test]
fn mixed_construction_order() {
    let mut ctx = ReactiveContext::new(arith);
    let a = ctx.new_signal(1u64);
    let m1 = ctx.new_memo(vec![a.reactive_entity()], DOUBLE);
    let b = ctx.new_signal(10u64);
    let m2 = ctx.new_memo(vec![m1.reactive_entity(), b.reactive_entity()], SUM);
    let c = ctx.new_signal(100u64);
    let m3 = ctx.new_memo(vec![m2.reactive_entity(), c.reactive_entity()], SUM);
    assert_eq!(*ctx.read(m3), 112);
    ctx.send_signal(a, 2);
    assert_eq!(*ctx.read(m3), 114);
    ctx.send_signal(b, 20);
    assert_eq!(*ctx.read(m3), 124);
    ctx.send_signal(c, 200);
    assert_eq!(*ctx.read(m3), 224);
    assert_eq!(*m2.read(&ctx), 24);
    assert_eq!(*a.read(&ctx), 2);
}

#[test]
fn constant_memo_with_no_inputs() {
    let mut ctx = ReactiveContext::new(arith);
    let m = ctx.new_memo(Vec::new(), CONST7);
    assert_eq!(*ctx.read(m), 7);
}

#[test]
fn memo_handle_constructor() {
    let mut ctx = ReactiveContext::new(arith);
    let x = ctx.new_signal(3u64);
    let m = reactive_graph::Memo::new(&mut ctx, vec![x.reactive_entity()], INC);
    assert_eq!(*m.read(&ctx), 4);
    let e = reactive_graph::Effect::new_deferred(&mut ctx, m, 1);
    assert_eq!(e.get(&ctx), Some(1));
}
