use vstd::prelude::*;

use crate::memo::MemoPlan;

verus! {

use crate::effect::queue_extends;
use crate::effect::queued;
use crate::lemma_calc_total_carries;
use crate::lemma_num_cells_bounded;
use crate::lemma_same_layout_trans;
use crate::lemma_settled_carries_over;
use crate::measure::lemma_measure_after_pop;
use crate::measure::stack_measure;
use crate::signal::Signal;
use crate::ReactiveContext;

/// Generalizes over the reactive handles (`Signal`, `Memo`) that are
/// ultimately lightweight references to a cell inside a `ReactiveContext`.
pub trait Observable: Sized {
    /// The index of the cell this handle refers to, as a mathematical value.
    spec fn spec_entity(&self) -> int;

    /// The index of the cell this handle refers to.
    fn reactive_entity(&self) -> (r: usize)
        ensures
            r as int == self.spec_entity(),
    ;
}

/// The core reactive primitive: one cell of the store. It holds the current
/// value, the list of subscribers to re-run when the value changes, an
/// optional plan describing how the value is derived (present exactly for
/// memo cells), and an optional effect annotation.
pub(crate) struct RxObservableData<T> {
    pub(crate) data: T,
    pub(crate) subscribers: Vec<usize>,
    pub(crate) plan: Option<MemoPlan>,
    pub(crate) effect: Option<u64>,
}

/// After cell `c` changed value and its subscribers were all moved onto the
/// work stack, every memo other than `c` is again settled or pending.
proof fn lemma_converging_after_update<T: PartialEq + Clone, F: Fn(u64, Vec<T>) -> T>(
    mid: ReactiveContext<T, F>,
    cur: ReactiveContext<T, F>,
    base: Seq<usize>,
    newstack: Seq<usize>,
    c: int,
)
    requires
        mid.store_sound(),
        0 <= c < mid.num_cells(),
        cur.num_cells() == mid.num_cells(),
        cur.calc_fn() == mid.calc_fn(),
        forall|t: int| 0 <= t < mid.num_cells() ==> #[trigger] cur.is_memo(t) == mid.is_memo(t),
        forall|t: int|
            0 <= t < mid.num_cells() && mid.is_memo(t) ==> #[trigger] cur.memo_inputs(t)
                == mid.memo_inputs(t),
        forall|t: int|
            0 <= t < mid.num_cells() && mid.is_memo(t) ==> #[trigger] cur.memo_op(t)
                == mid.memo_op(t),
        forall|i: int|
            0 <= i < mid.num_cells() && i != c ==> #[trigger] cur.value_of(i) == mid.value_of(i),
        forall|i: int|
            0 <= i < mid.num_cells() && i != c ==> #[trigger] cur.subscribers_of(i)
                == mid.subscribers_of(i),
        newstack == base + mid.subscribers_of(c),
        forall|m: int|
            0 <= m < mid.num_cells() && #[trigger] mid.is_memo(m) && m != c ==> ((mid.memo_ok(m)
                && mid.fully_subscribed(m)) || base.contains(m as usize)),
    ensures
        forall|m: int|
            0 <= m < cur.num_cells() && #[trigger] cur.is_memo(m) && m != c ==> ((cur.memo_ok(m)
                && cur.fully_subscribed(m)) || newstack.contains(m as usize)),
{
    assert forall|m: int|
        0 <= m < cur.num_cells() && #[trigger] cur.is_memo(m) && m != c implies ((cur.memo_ok(m)
        && cur.fully_subscribed(m)) || newstack.contains(m as usize)) by {
        assert(mid.is_memo(m));
        if mid.memo_ok(m) && mid.fully_subscribed(m) {
            assert(mid.cell_sound(m));
            if mid.memo_inputs(m).contains(c as usize) {
                // the memo read `c`, so it was subscribed there and is now pending
                let w = choose|w: int|
                    0 <= w < mid.memo_inputs(m).len() && mid.memo_inputs(m)[w] == c as usize;
                assert(mid.subscribers_of(mid.memo_inputs(m)[w] as int).contains(m as usize));
                lemma_num_cells_bounded(mid);
                assert((c as usize) as int == c);
                assert(mid.subscribers_of(c).contains(m as usize));
                let u = choose|u: int|
                    0 <= u < mid.subscribers_of(c).len() && mid.subscribers_of(c)[u] == m as usize;
                assert(newstack[base.len() + u] == m as usize);
                assert(newstack.contains(m as usize));
            } else {
                // none of the memo's inputs changed, so it stays settled
                assert forall|k: int|
                    0 <= k < mid.memo_inputs(m).len() implies (#[trigger] mid.memo_inputs(m)[k]
                    as int) != c && 0 <= (mid.memo_inputs(m)[k] as int) < mid.num_cells() by {
                    assert((mid.memo_inputs(m)[k] as int) < m);
                    if (mid.memo_inputs(m)[k] as int) == c {
                        assert(mid.memo_inputs(m).contains(c as usize));
                    }
                }
                assert(cur.memo_inputs(m) == mid.memo_inputs(m));
                assert forall|k: int|
                    0 <= k < cur.input_values(m).len() implies #[trigger] cur.input_values(m)[k]
                    == mid.input_values(m)[k] by {
                    assert(cur.value_of(mid.memo_inputs(m)[k] as int) == mid.value_of(
                        mid.memo_inputs(m)[k] as int,
                    ));
                }
                assert(cur.input_values(m) =~= mid.input_values(m));
                let vals = choose|vals: Vec<T>|
                    {
                        &&& vals@ == mid.input_values(m)
                        &&& #[trigger] call_ensures(
                            mid.calc_fn(),
                            (mid.memo_op(m), vals),
                            mid.value_of(m),
                        )
                    };
                assert(cur.value_of(m) == mid.value_of(m));
                assert(call_ensures(cur.calc_fn(), (cur.memo_op(m), vals), cur.value_of(m)));
                assert(cur.memo_ok(m));
                assert forall|k: int|
                    0 <= k < cur.memo_inputs(m).len() implies #[trigger] cur.subscribers_of(
                    cur.memo_inputs(m)[k] as int,
                ).contains(m as usize) by {
                    let d = mid.memo_inputs(m)[k] as int;
                    assert(mid.subscribers_of(d).contains(m as usize));
                    assert(cur.subscribers_of(d) == mid.subscribers_of(d));
                }
            }
        } else {
            assert(base.contains(m as usize));
            let u = choose|u: int| 0 <= u < base.len() && base[u] == m as usize;
            assert(newstack[u] == m as usize);
            assert(newstack.contains(m as usize));
        }
    }
}

impl<T: PartialEq + Clone, F: Fn(u64, Vec<T>) -> T> ReactiveContext<T, F> {
    /// Send a signal, and run the reaction graph to completion.
    ///
    /// Writes `value` to the signal's cell. If the value actually changes,
    /// every memo that transitively read a changed cell is recomputed, with
    /// equal-value updates cutting the cascade; every changed cell carrying
    /// an effect annotation queues one deferred effect. Writing a value equal
    /// to the current one changes nothing at all.
    ///
    /// Subscribers pushed by the same change are recomputed in the reverse
    /// of their subscription order (the pending work lives on a stack);
    /// memo computations must not care about that order. The loop carries a
    /// termination measure: because every memo reads only cells created
    /// before it, any cascade ends after finitely many recomputations.
    pub fn send_signal(&mut self, signal: Signal, value: T)
        requires
            old(self).wf(),
            0 <= signal.spec_entity() < old(self).num_cells(),
            !old(self).is_memo(signal.spec_entity()),
        ensures
            final(self).wf(),
            Self::same_layout(*old(self), *final(self)),
            final(self).value_of(signal.spec_entity()) == value,
            forall|i: int|
                0 <= i < old(self).num_cells() && !old(self).is_memo(i) && i
                    != signal.spec_entity() ==> #[trigger] final(self).value_of(i)
                    == old(self).value_of(i),
            old(self).value_of(signal.spec_entity()) == value ==> *final(self) == *old(self),
            queue_extends(old(self).pending_effects(), final(self).pending_effects()),
            old(self).value_of(signal.spec_entity()) != value ==> (match old(self).effect_of(
                signal.spec_entity(),
            ) {
                Some(tag) => final(self).pending_effects().len()
                    > old(self).pending_effects().len()
                    && final(self).pending_effects()[old(self).pending_effects().len() as int].spec_tag()
                    == tag
                    && final(self).pending_effects()[old(self).pending_effects().len() as int].spec_value()
                    == value,
                None => true,
            }),
            (old(self).value_of(signal.spec_entity()) != value && old(self).subscribers_of(
                signal.spec_entity(),
            ).len() == 0) ==> {
                &&& final(self).num_recomputes() == old(self).num_recomputes()
                &&& (forall|i: int|
                    0 <= i < old(self).num_cells() && i != signal.spec_entity()
                        ==> #[trigger] final(self).value_of(i) == old(self).value_of(i)
                        && final(self).subscribers_of(i) == old(self).subscribers_of(i))
                &&& (match old(self).effect_of(signal.spec_entity()) {
                    Some(tag) => queued(
                        old(self).pending_effects(),
                        final(self).pending_effects(),
                        tag,
                        value,
                    ),
                    None => final(self).pending_effects() == old(self).pending_effects(),
                })
            },
    {
        let ghost st = signal.spec_entity();
        let ghost nn = old(self).num_cells() as nat;
        let target = signal.reactive_entity();
        let mut stack: Vec<usize> = Vec::new();
        self.update_value(&mut stack, target, value);
        let ghost after0 = *self;
        let ghost stack0 = stack@;
        proof {
            if old(self).value_of(st) == value {
                assert(*self == *old(self));
                assert(stack@ =~= Seq::<usize>::empty());
                assert(self.converging(stack@));
            } else {
                assert(stack@ =~= Seq::<usize>::empty() + old(self).subscribers_of(st));
                lemma_converging_after_update(
                    *old(self),
                    *self,
                    Seq::<usize>::empty(),
                    stack@,
                    st,
                );
                assert(old(self).cell_sound(st));
                assert forall|k: int|
                    0 <= k < stack@.len() implies (#[trigger] stack@[k] as int)
                    < self.num_cells() && self.is_memo(stack@[k] as int) by {
                    assert(old(self).subscribers_of(st)[k] == stack@[k]);
                    assert(old(self).is_memo(stack@[k] as int));
                }
                assert(!self.is_memo(st));
                assert(self.converging(stack@));
            }
        }
        while stack.len() > 0
            invariant
                self.engine_ready(),
                self.store_sound(),
                Self::same_layout(*old(self), *self),
                0 <= st < self.num_cells(),
                st == signal.spec_entity(),
                nn == self.num_cells() as nat,
                !old(self).is_memo(st),
                forall|k: int|
                    0 <= k < stack@.len() ==> (#[trigger] stack@[k] as int) < self.num_cells()
                        && self.is_memo(stack@[k] as int),
                self.converging(stack@),
                self.value_of(st) == (if old(self).value_of(st) == value {
                    old(self).value_of(st)
                } else {
                    value
                }),
                forall|i: int|
                    0 <= i < old(self).num_cells() && !old(self).is_memo(i) && i != st
                        ==> #[trigger] self.value_of(i) == old(self).value_of(i),
                queue_extends(after0.pending_effects(), self.pending_effects()),
                old(self).value_of(st) == value ==> after0 == *old(self) && stack0.len() == 0,
                old(self).value_of(st) != value ==> stack0 == old(self).subscribers_of(st)
                    && after0.num_recomputes() == old(self).num_recomputes() && (forall|i: int|
                    0 <= i < old(self).num_cells() && i != st ==> #[trigger] after0.value_of(i)
                        == old(self).value_of(i) && after0.subscribers_of(i) == old(
                        self,
                    ).subscribers_of(i)) && (match old(self).effect_of(st) {
                    Some(tag) => queued(
                        old(self).pending_effects(),
                        after0.pending_effects(),
                        tag,
                        value,
                    ),
                    None => after0.pending_effects() == old(self).pending_effects(),
                }),
                stack0.len() == 0 ==> *self == after0 && stack@.len() == 0,
            decreases stack_measure(stack@, nn),
        {
            let ghost stackold = stack@;
            let sub = stack.pop().unwrap();
            let ghost stack1 = stack@;
            let ghost pre_it = *self;
            let v = self.read_and_derive(sub);
            let ghost mid_it = *self;
            self.update_value(&mut stack, sub, v);
            proof {
                let subi = sub as int;
                let cur = *self;
                assert(stackold.last() == sub);
                assert(stack1 == stackold.drop_last());
                // the equal-value and empty-start cases never reach the body
                assert(old(self).value_of(st) != value);
                assert(stack0.len() > 0);
                // bridge the settled set from pre_it to mid_it
                assert forall|t: int, s: usize|
                    0 <= t < pre_it.num_cells() && #[trigger] pre_it.subscribers_of(t).contains(
                    s,
                ) implies mid_it.subscribers_of(t).contains(s) by {
                    if mid_it.subscribers_of(t) == pre_it.subscribers_of(t).push(sub) {
                        let u = choose|u: int|
                            0 <= u < pre_it.subscribers_of(t).len() && pre_it.subscribers_of(t)[u]
                                == s;
                        assert(mid_it.subscribers_of(t)[u] == s);
                    }
                }
                assert forall|m: int|
                    0 <= m < mid_it.num_cells() && #[trigger] mid_it.is_memo(m) && m != subi
                    implies ((mid_it.memo_ok(m) && mid_it.fully_subscribed(m)) || stack1.contains(
                    m as usize,
                )) by {
                    assert(pre_it.is_memo(m));
                    if pre_it.memo_ok(m) && pre_it.fully_subscribed(m) {
                        assert(pre_it.cell_sound(m));
                        assert forall|k: int|
                            0 <= k < pre_it.memo_inputs(m).len() implies 0 <= (
                        #[trigger] pre_it.memo_inputs(m)[k] as int) < pre_it.num_cells() by {
                            assert((pre_it.memo_inputs(m)[k] as int) < m);
                        }
                        lemma_settled_carries_over(pre_it, mid_it, m);
                    } else {
                        assert(stackold.contains(m as usize));
                        let u = choose|u: int|
                            0 <= u < stackold.len() && stackold[u] == m as usize;
                        if u == stackold.len() - 1 {
                            assert(stackold[u] == sub);
                            lemma_num_cells_bounded(mid_it);
                            assert((m as usize) as int == m);
                        }
                        assert(u < stackold.len() - 1);
                        assert(stack1[u] == m as usize);
                        assert(stack1.contains(m as usize));
                    }
                }
                // `sub` itself is settled after its recomputation
                assert(mid_it.cell_sound(subi));
                assert forall|k: int|
                    0 <= k < mid_it.memo_inputs(subi).len() implies (
                #[trigger] mid_it.memo_inputs(subi)[k] as int) != subi && 0 <= (
                mid_it.memo_inputs(subi)[k] as int) < mid_it.num_cells() by {
                    assert((mid_it.memo_inputs(subi)[k] as int) < subi);
                }
                let w = choose|w: Vec<T>|
                    {
                        &&& w@ == mid_it.input_values(subi)
                        &&& #[trigger] call_ensures(
                            mid_it.calc_fn(),
                            (mid_it.memo_op(subi), w),
                            v,
                        )
                    };
                if mid_it.value_of(subi) == v {
                    assert(cur == mid_it);
                    assert(cur.memo_ok(subi));
                    assert(cur.fully_subscribed(subi));
                    assert(stack@ == stack1);
                    assert forall|m: int|
                        0 <= m < cur.num_cells() && #[trigger] cur.is_memo(m) implies ((
                    cur.memo_ok(m) && cur.fully_subscribed(m)) || stack@.contains(m as usize)) by {
                        if m != subi && !(cur.memo_ok(m) && cur.fully_subscribed(m)) {
                            assert(stack1.contains(m as usize));
                        }
                    }
                } else {
                    assert(stack@ == stack1 + mid_it.subscribers_of(subi));
                    lemma_converging_after_update(mid_it, cur, stack1, stack@, subi);
                    // `sub` stays settled: none of its inputs is `sub` itself
                    assert(cur.memo_inputs(subi) == mid_it.memo_inputs(subi));
                    assert forall|k: int|
                        0 <= k < cur.input_values(subi).len() implies #[trigger] cur.input_values(
                        subi,
                    )[k] == mid_it.input_values(subi)[k] by {
                        assert(cur.value_of(mid_it.memo_inputs(subi)[k] as int) == mid_it.value_of(
                            mid_it.memo_inputs(subi)[k] as int,
                        ));
                    }
                    assert(cur.input_values(subi) =~= mid_it.input_values(subi));
                    assert(cur.value_of(subi) == v);
                    assert(call_ensures(cur.calc_fn(), (cur.memo_op(subi), w), cur.value_of(subi)));
                    assert(cur.memo_ok(subi));
                    assert forall|k: int|
                        0 <= k < cur.memo_inputs(subi).len() implies #[trigger] cur.subscribers_of(
                        cur.memo_inputs(subi)[k] as int,
                    ).contains(sub) by {
                        let d = mid_it.memo_inputs(subi)[k] as int;
                        assert(mid_it.subscribers_of(d).contains((subi as usize)));
                        assert(cur.subscribers_of(d) == mid_it.subscribers_of(d));
                        assert((subi as usize) == sub);
                    }
                    assert(cur.fully_subscribed(subi));
                    assert forall|m: int|
                        0 <= m < cur.num_cells() && #[trigger] cur.is_memo(m) implies ((
                    cur.memo_ok(m) && cur.fully_subscribed(m)) || stack@.contains(m as usize)) by {}
                }
                // stack entries are valid memos
                assert forall|k: int|
                    0 <= k < stack@.len() implies (#[trigger] stack@[k] as int) < self.num_cells()
                    && self.is_memo(stack@[k] as int) by {
                    if k < stack1.len() {
                        assert(stackold[k] == stack@[k]);
                    } else {
                        assert(mid_it.cell_sound(subi));
                        let e = mid_it.subscribers_of(subi)[k - stack1.len()];
                        assert(e == stack@[k]);
                        assert(mid_it.is_memo(e as int));
                    }
                }
                // layout is carried across the two steps
                lemma_same_layout_trans(*old(self), pre_it, mid_it);
                lemma_same_layout_trans(*old(self), mid_it, cur);
                lemma_calc_total_carries(*old(self), cur);
                // the measure shrinks
                let pushed = if mid_it.value_of(subi) == v {
                    Seq::<usize>::empty()
                } else {
                    mid_it.subscribers_of(subi)
                };
                assert forall|k: int|
                    0 <= k < pushed.len() implies (sub as nat) < (#[trigger] pushed[k] as nat) && (
                pushed[k] as nat) < nn by {
                    assert(mid_it.cell_sound(subi));
                    let e = pushed[k];
                    assert(mid_it.is_memo(e as int) && mid_it.memo_inputs(e as int).contains(
                        subi as usize,
                    ));
                    assert(mid_it.cell_sound(e as int));
                    let u = choose|u: int|
                        0 <= u < mid_it.memo_inputs(e as int).len() && mid_it.memo_inputs(
                            e as int,
                        )[u] == subi as usize;
                    assert((mid_it.memo_inputs(e as int)[u] as int) < e as int);
                }
                assert(pushed.no_duplicates());
                if mid_it.value_of(subi) == v {
                    assert(stack@ =~= stack1 + pushed);
                }
                lemma_measure_after_pop(stackold, pushed, nn);
            }
        }
        proof {
            assert(stack@ =~= Seq::<usize>::empty());
            assert(self.converging(Seq::<usize>::empty()));
            if old(self).value_of(st) != value && old(self).subscribers_of(st).len() == 0 {
                assert(stack0.len() == 0);
                assert(*self == after0);
            }
        }
    }
}

} // verus!
