//! A synchronous reactive value graph.
//!
//! Application code declares writable cells holding values ([`Signal`]),
//! derived cells whose values are computed from other cells ([`Memo`]), and
//! side effects triggered when a cell's value changes ([`Effect`]). Writing a
//! new value to a signal propagates synchronously through the dependency
//! graph: every transitively affected memo is recomputed exactly as needed,
//! and any effect attached to a cell that changed is queued for a later
//! batched flush.
//!
//! All cells of one [`ReactiveContext`] hold values of one type `T`; an
//! application that needs several value types instantiates `T` with an enum
//! of them. Memo computations are described by a single calculation function
//! held by the context: each memo stores the indices of its input cells and a
//! tag, and recomputation applies the calculation function to the tag and the
//! current input values. Propagation is diff-suppressed — writing a value
//! equal to the current one, or a memo computing a value equal to its cached
//! one, stops the cascade at that point — and iterative, driven by an
//! explicit work stack rather than recursion.

use vstd::prelude::*;

pub mod effect;
mod measure;
pub mod memo;
pub mod observable;
pub mod signal;

pub use effect::Effect;
pub use effect::EffectData;
pub use effect::RxDeferredEffects;
pub use memo::Memo;
pub use observable::Observable;
pub use signal::Signal;

verus! {

use vstd::laws_eq::obeys_concrete_eq;
use vstd::pervasive::cloned;

use crate::effect::queued;
use crate::memo::MemoPlan;
use crate::observable::RxObservableData;

/// Whether `ids` holds `x`.
fn contains_id(ids: &Vec<usize>, x: usize) -> (r: bool)
    ensures
        r == ids@.contains(x),
{
    let mut k: usize = 0;
    while k < ids.len()
        invariant
            k <= ids@.len(),
            forall|j: int| 0 <= j < k ==> ids@[j] != x,
        decreases ids@.len() - k,
    {
        if ids[k] == x {
            return true;
        }
        k += 1;
    }
    proof {
        assert(!ids@.contains(x));
    }
    false
}

/// An owned copy of a list of cell indices.
fn copy_ids(ids: &Vec<usize>) -> (r: Vec<usize>)
    ensures
        r@ == ids@,
{
    let mut out: Vec<usize> = Vec::new();
    let mut k: usize = 0;
    while k < ids.len()
        invariant
            k <= ids@.len(),
            out@ == ids@.subrange(0, k as int),
        decreases ids@.len() - k,
    {
        out.push(ids[k]);
        k += 1;
        proof {
            assert(ids@.subrange(0, k as int) =~= ids@.subrange(0, k as int - 1).push(
                ids@[k as int - 1],
            ));
        }
    }
    proof {
        assert(ids@.subrange(0, ids@.len() as int) =~= ids@);
    }
    out
}

/// Every possible result of cloning a `T` equals the value cloned. Together
/// with [`obeys_concrete_eq`] this lets the graph treat `T` as a plain
/// mathematical value: `==` decides equality and clones are copies.
pub open spec fn clone_respects_eq<T: Clone>() -> bool {
    forall|a: T, b: T| #[trigger] cloned::<T>(a, b) ==> b == a
}

/// `c` bumped by one, sticking at the maximum instead of overflowing.
pub open spec fn sat_inc(c: u64) -> u64 {
    if c < u64::MAX {
        (c + 1) as u64
    } else {
        c
    }
}

/// Contains all reactive state: the cell store, the calculation function
/// shared by all memo cells, the queue of deferred effects, and a tally of
/// how many times a memo computation has run.
pub struct ReactiveContext<T, F> {
    pub(crate) cells: Vec<RxObservableData<T>>,
    pub(crate) calc: F,
    pub(crate) effects: RxDeferredEffects<T>,
    pub(crate) recomputes: u64,
}

impl<T: PartialEq + Clone, F: Fn(u64, Vec<T>) -> T> ReactiveContext<T, F> {
    /// How many cells the store holds.
    pub closed spec fn num_cells(self) -> int {
        self.cells@.len() as int
    }

    /// Whether cell `i` is a memo (has a derivation plan).
    pub closed spec fn is_memo(self, i: int) -> bool {
        self.cells@[i].plan is Some
    }

    /// The input cells memo `i` reads, in declaration order.
    pub closed spec fn memo_inputs(self, i: int) -> Seq<usize> {
        self.cells@[i].plan->0.inputs@
    }

    /// The tag memo `i` hands to the calculation function.
    pub closed spec fn memo_op(self, i: int) -> u64 {
        self.cells@[i].plan->0.op
    }

    /// The current value of cell `i`.
    pub closed spec fn value_of(self, i: int) -> T {
        self.cells@[i].data
    }

    /// The subscribers of cell `i`: the memos to re-run when `i` changes.
    pub closed spec fn subscribers_of(self, i: int) -> Seq<usize> {
        self.cells@[i].subscribers@
    }

    /// The effect annotation of cell `i`, if any.
    pub closed spec fn effect_of(self, i: int) -> Option<u64> {
        self.cells@[i].effect
    }

    /// The queued deferred effects, oldest first.
    pub closed spec fn pending_effects(self) -> Seq<EffectData<T>> {
        self.effects.entries()
    }

    /// The calculation function shared by all memos of this context.
    pub closed spec fn calc_fn(self) -> F {
        self.calc
    }

    /// How many times a memo computation has run (saturating).
    pub closed spec fn num_recomputes(self) -> u64 {
        self.recomputes
    }

    /// The current values of memo `i`'s inputs, in declaration order.
    pub open spec fn input_values(self, i: int) -> Seq<T> {
        self.memo_inputs(i).map_values(|j: usize| self.value_of(j as int))
    }

    /// The calculation function accepts every tag and every input vector.
    pub open spec fn calc_total(self) -> bool {
        forall|args: (u64, Vec<T>)| #[trigger] call_requires(self.calc_fn(), args)
    }

    /// The static assumptions the engine runs under: `==` on `T` decides
    /// equality, clones of `T` are copies, and the calculation function can
    /// be applied to anything.
    pub open spec fn engine_ready(self) -> bool {
        &&& obeys_concrete_eq::<T>()
        &&& clone_respects_eq::<T>()
        &&& self.calc_total()
    }

    /// Memo `i`'s cached value is a possible result of the calculation
    /// function applied to its tag and the current values of its inputs.
    pub open spec fn memo_ok(self, i: int) -> bool {
        exists|vals: Vec<T>|
            {
                &&& vals@ == self.input_values(i)
                &&& #[trigger] call_ensures(self.calc_fn(), (self.memo_op(i), vals), self.value_of(i))
            }
    }

    /// Memo `i` stands in the subscriber list of each of its inputs.
    pub open spec fn fully_subscribed(self, i: int) -> bool {
        forall|k: int|
            0 <= k < self.memo_inputs(i).len() ==> #[trigger] self.subscribers_of(
                self.memo_inputs(i)[k] as int,
            ).contains(i as usize)
    }

    /// Structural soundness of cell `i`: a memo only reads cells created
    /// before it, and the subscriber list is duplicate-free and contains
    /// exactly memos that declare `i` as an input.
    pub open spec fn cell_sound(self, i: int) -> bool {
        &&& self.is_memo(i) ==> forall|k: int|
            0 <= k < self.memo_inputs(i).len() ==> (#[trigger] self.memo_inputs(i)[k] as int) < i
        &&& self.subscribers_of(i).no_duplicates()
        &&& forall|k: int|
            0 <= k < self.subscribers_of(i).len() ==> {
                let s = #[trigger] self.subscribers_of(i)[k] as int;
                &&& s < self.num_cells()
                &&& self.is_memo(s)
                &&& self.memo_inputs(s).contains(i as usize)
            }
    }

    /// Structural soundness of the whole store.
    pub open spec fn store_sound(self) -> bool {
        forall|i: int| 0 <= i < self.num_cells() ==> #[trigger] self.cell_sound(i)
    }

    /// Every memo is either settled — cached value current, subscribed to
    /// all its inputs — or waiting on the work stack to be recomputed.
    pub open spec fn converging(self, stack: Seq<usize>) -> bool {
        forall|m: int|
            0 <= m < self.num_cells() && #[trigger] self.is_memo(m) ==> {
                ||| (self.memo_ok(m) && self.fully_subscribed(m))
                ||| stack.contains(m as usize)
            }
    }

    /// Well-formedness between public calls: the store is structurally sound
    /// and every memo is settled.
    pub open spec fn wf(self) -> bool {
        &&& self.engine_ready()
        &&& self.store_sound()
        &&& self.converging(Seq::<usize>::empty())
    }

    /// Cell `i` is identical in `pre` and `post`.
    pub open spec fn cell_same(pre: Self, post: Self, i: int) -> bool {
        &&& post.is_memo(i) == pre.is_memo(i)
        &&& pre.is_memo(i) ==> post.memo_inputs(i) == pre.memo_inputs(i) && post.memo_op(i)
            == pre.memo_op(i)
        &&& post.effect_of(i) == pre.effect_of(i)
        &&& post.value_of(i) == pre.value_of(i)
        &&& post.subscribers_of(i) == pre.subscribers_of(i)
    }

    /// All cells below index `k` are identical in `pre` and `post`.
    pub open spec fn unchanged_below(pre: Self, post: Self, k: int) -> bool {
        forall|i: int| 0 <= i < k ==> #[trigger] Self::cell_same(pre, post, i)
    }

    /// Cell count, plans, tags and effect annotations agree between `pre`
    /// and `post`; values and subscriber lists may differ.
    pub open spec fn same_layout(pre: Self, post: Self) -> bool {
        &&& post.num_cells() == pre.num_cells()
        &&& post.calc_fn() == pre.calc_fn()
        &&& forall|i: int| 0 <= i < pre.num_cells() ==> #[trigger] post.is_memo(i) == pre.is_memo(i)
        &&& forall|i: int|
            0 <= i < pre.num_cells() && pre.is_memo(i) ==> #[trigger] post.memo_inputs(i)
                == pre.memo_inputs(i)
        &&& forall|i: int|
            0 <= i < pre.num_cells() && pre.is_memo(i) ==> #[trigger] post.memo_op(i)
                == pre.memo_op(i)
        &&& forall|i: int|
            0 <= i < pre.num_cells() ==> #[trigger] post.effect_of(i) == pre.effect_of(i)
    }

    /// Create an empty context around a calculation function.
    ///
    /// The three assumptions of `engine_ready` are demands on the caller's
    /// choice of `T` and `calc`: equality on `T` must mean value equality,
    /// clones of `T` must be copies, and `calc` must accept every input.
    pub fn new(calc: F) -> (r: Self)
        requires
            obeys_concrete_eq::<T>(),
            clone_respects_eq::<T>(),
            forall|args: (u64, Vec<T>)| #[trigger] call_requires(calc, args),
        ensures
            r.wf(),
            r.num_cells() == 0,
            r.pending_effects() == Seq::<EffectData<T>>::empty(),
            r.num_recomputes() == 0,
            r.calc_fn() == calc,
    {
        ReactiveContext { cells: Vec::new(), calc, effects: RxDeferredEffects::empty(), recomputes: 0 }
    }

    /// Returns the current value of the provided observable — any reactive
    /// handle that has a value, like a [`Signal`] or a [`Memo`].
    pub fn read<O: Observable>(&self, observable: O) -> (r: &T)
        requires
            0 <= observable.spec_entity() < self.num_cells(),
        ensures
            *r == self.value_of(observable.spec_entity()),
    {
        let e = observable.reactive_entity();
        &self.cells[e].data
    }

    /// Create a new writable cell holding `initial_value`, with no
    /// subscribers and no effect annotation.
    pub fn new_signal(&mut self, initial_value: T) -> (s: Signal)
        requires
            old(self).wf(),
        ensures
            final(self).wf(),
            s.spec_entity() == old(self).num_cells(),
            final(self).num_cells() == old(self).num_cells() + 1,
            !final(self).is_memo(s.spec_entity()),
            final(self).value_of(s.spec_entity()) == initial_value,
            final(self).subscribers_of(s.spec_entity()) == Seq::<usize>::empty(),
            final(self).effect_of(s.spec_entity()) is None,
            Self::unchanged_below(*old(self), *final(self), old(self).num_cells()),
            final(self).pending_effects() == old(self).pending_effects(),
            final(self).num_recomputes() == old(self).num_recomputes(),
            final(self).calc_fn() == old(self).calc_fn(),
    {
        let id = self.cells.len();
        self.cells.push(
            RxObservableData { data: initial_value, subscribers: Vec::new(), plan: None, effect: None },
        );
        proof {
            let pre = *old(self);
            assert forall|i: int| 0 <= i < pre.num_cells() implies ReactiveContext::cell_same(
                pre,
                *self,
                i,
            ) by {
                assert(self.cells@[i] == pre.cells@[i]);
            }
            assert(self.subscribers_of(pre.num_cells()) =~= Seq::<usize>::empty());
            lemma_extend_keeps_settled(pre, *self);
        }
        Signal::from_entity(id)
    }

    /// Read the current values of the cells named by `ids`, in order.
    fn collect_values(&self, ids: &Vec<usize>) -> (vals: Vec<T>)
        requires
            clone_respects_eq::<T>(),
            forall|k: int| 0 <= k < ids@.len() ==> (#[trigger] ids@[k] as int) < self.num_cells(),
        ensures
            vals@ == ids@.map_values(|j: usize| self.value_of(j as int)),
    {
        let mut vals: Vec<T> = Vec::new();
        let mut k: usize = 0;
        while k < ids.len()
            invariant
                clone_respects_eq::<T>(),
                forall|j: int| 0 <= j < ids@.len() ==> (#[trigger] ids@[j] as int)
                    < self.num_cells(),
                k <= ids@.len(),
                vals@ == ids@.subrange(0, k as int).map_values(
                    |j: usize| self.value_of(j as int),
                ),
            decreases ids@.len() - k,
        {
            let j = ids[k];
            let v = self.cells[j].data.clone();
            proof {
                assert(cloned::<T>(self.cells@[j as int].data, v));
                assert(v == self.value_of(j as int));
            }
            vals.push(v);
            k += 1;
            proof {
                let f = |j: usize| self.value_of(j as int);
                assert(ids@.subrange(0, k as int).map_values(f) =~= ids@.subrange(
                    0,
                    k as int - 1,
                ).map_values(f).push(f(ids@[k as int - 1])));
            }
        }
        proof {
            assert(ids@.subrange(0, ids@.len() as int) =~= ids@);
        }
        vals
    }

    /// Record that memo `reader` read cell `observable` on its current run:
    /// add it to the subscriber list unless it is already there.
    fn subscribe(&mut self, observable: usize, reader: usize)
        requires
            old(self).store_sound(),
            (observable as int) < old(self).num_cells(),
            (reader as int) < old(self).num_cells(),
            old(self).is_memo(reader as int),
            old(self).memo_inputs(reader as int).contains(observable),
        ensures
            final(self).store_sound(),
            Self::same_layout(*old(self), *final(self)),
            forall|i: int|
                0 <= i < old(self).num_cells() ==> #[trigger] final(self).value_of(i)
                    == old(self).value_of(i),
            forall|i: int|
                0 <= i < old(self).num_cells() && i != observable as int ==> #[trigger] final(self).subscribers_of(i)
                    == old(self).subscribers_of(i),
            final(self).subscribers_of(observable as int) == (if old(self).subscribers_of(
                observable as int,
            ).contains(reader) {
                old(self).subscribers_of(observable as int)
            } else {
                old(self).subscribers_of(observable as int).push(reader)
            }),
            final(self).pending_effects() == old(self).pending_effects(),
            final(self).num_recomputes() == old(self).num_recomputes(),
            final(self).calc_fn() == old(self).calc_fn(),
    {
        if !contains_id(&self.cells[observable].subscribers, reader) {
            self.cells[observable].subscribers.push(reader);
            proof {
                let pre = *old(self);
                let obs = observable as int;
                assert forall|i: int|
                    0 <= i < pre.num_cells() && i != obs implies self.cells@[i] == pre.cells@[i] by {}
                assert(self.cells@[obs].plan == pre.cells@[obs].plan);
                assert(self.cells@[obs].data == pre.cells@[obs].data);
                assert(self.cells@[obs].effect == pre.cells@[obs].effect);
                assert(self.subscribers_of(obs) == pre.subscribers_of(obs).push(reader));
                assert forall|i: int| 0 <= i < self.num_cells() implies self.cell_sound(i) by {
                    if i == obs {
                        lemma_cell_sound_after_push(pre, *self, i, reader);
                    } else {
                        lemma_cell_sound_preserved(pre, *self, i);
                    }
                }
            }
        }
    }

    /// Write `value` into cell `observable`. If the value actually changes,
    /// the cell's subscribers are moved onto the work stack (leaving the list
    /// empty), and if the cell carries an effect annotation one deferred
    /// effect entry holding `value` is queued. If the value is equal to the
    /// current one, nothing happens at all.
    pub fn update_value(&mut self, stack: &mut Vec<usize>, observable: usize, value: T)
        requires
            old(self).engine_ready(),
            old(self).store_sound(),
            (observable as int) < old(self).num_cells(),
        ensures
            final(self).engine_ready(),
            final(self).store_sound(),
            Self::same_layout(*old(self), *final(self)),
            final(self).num_recomputes() == old(self).num_recomputes(),
            old(self).value_of(observable as int) == value ==> *final(self) == *old(self)
                && final(stack)@ == old(stack)@,
            old(self).value_of(observable as int) != value ==> {
                &&& final(self).value_of(observable as int) == value
                &&& (forall|i: int|
                    0 <= i < old(self).num_cells() && i != observable as int ==> #[trigger] final(self).value_of(i)
                        == old(self).value_of(i))
                &&& final(self).subscribers_of(observable as int) == Seq::<usize>::empty()
                &&& (forall|i: int|
                    0 <= i < old(self).num_cells() && i != observable as int ==> #[trigger] final(self).subscribers_of(i)
                        == old(self).subscribers_of(i))
                &&& final(stack)@ == old(stack)@ + old(self).subscribers_of(observable as int)
                &&& (match old(self).effect_of(observable as int) {
                    Some(tag) => queued(
                        old(self).pending_effects(),
                        final(self).pending_effects(),
                        tag,
                        value,
                    ),
                    None => final(self).pending_effects() == old(self).pending_effects(),
                })
            },
    {
        proof {
            reveal(vstd::laws_eq::obeys_concrete_eq);
        }
        let unchanged = self.cells[observable].data == value;
        if unchanged {
            return ;
        }
        self.cells[observable].data = value;
        let obs_effect = self.cells[observable].effect;
        if let Some(tag) = obs_effect {
            let snapshot = self.cells[observable].data.clone();
            proof {
                assert(cloned::<T>(self.cells@[observable as int].data, snapshot));
            }
            self.effects.push(tag, snapshot);
        }
        let mut taken: Vec<usize> = Vec::new();
        core::mem::swap(&mut taken, &mut self.cells[observable].subscribers);
        stack.append(&mut taken);
        proof {
            let pre = *old(self);
            let obs = observable as int;
            assert forall|i: int|
                0 <= i < pre.num_cells() && i != obs implies self.cells@[i] == pre.cells@[i] by {}
            assert(self.cells@[obs].plan == pre.cells@[obs].plan);
            assert(self.cells@[obs].effect == pre.cells@[obs].effect);
            assert(self.subscribers_of(obs) =~= Seq::<usize>::empty());
            assert(self.calc_fn() == pre.calc_fn());
            assert forall|args: (u64, Vec<T>)| #[trigger] call_requires(self.calc_fn(), args) by {
                assert(call_requires(pre.calc_fn(), args));
            }
            assert forall|i: int| 0 <= i < self.num_cells() implies self.cell_sound(i) by {
                if i == obs {
                    lemma_cell_sound_emptied(pre, *self, i);
                } else {
                    lemma_cell_sound_preserved(pre, *self, i);
                }
            }
        }
    }

    /// The declared inputs and tag of memo `reader`, as owned values.
    fn plan_of(&self, reader: usize) -> (r: (Vec<usize>, u64))
        requires
            (reader as int) < self.num_cells(),
            self.is_memo(reader as int),
        ensures
            r.0@ == self.memo_inputs(reader as int),
            r.1 == self.memo_op(reader as int),
    {
        let p = self.cells[reader].plan.as_ref().unwrap();
        let ids = copy_ids(&p.inputs);
        (ids, p.op)
    }

    /// Subscribe memo `reader` to every cell in `ids` (its declared inputs),
    /// with set semantics: a list already holding `reader` is left alone.
    fn subscribe_ids(&mut self, ids: &Vec<usize>, reader: usize)
        requires
            old(self).store_sound(),
            (reader as int) < old(self).num_cells(),
            old(self).is_memo(reader as int),
            ids@ == old(self).memo_inputs(reader as int),
            forall|k: int|
                0 <= k < ids@.len() ==> (#[trigger] ids@[k] as int) < old(self).num_cells(),
        ensures
            final(self).store_sound(),
            Self::same_layout(*old(self), *final(self)),
            forall|i: int|
                0 <= i < old(self).num_cells() ==> #[trigger] final(self).value_of(i)
                    == old(self).value_of(i),
            forall|i: int|
                0 <= i < old(self).num_cells() ==> #[trigger] final(self).subscribers_of(i) == (
                if ids@.contains(i as usize) && !old(self).subscribers_of(i).contains(reader) {
                    old(self).subscribers_of(i).push(reader)
                } else {
                    old(self).subscribers_of(i)
                }),
            final(self).fully_subscribed(reader as int),
            final(self).pending_effects() == old(self).pending_effects(),
            final(self).num_recomputes() == old(self).num_recomputes(),
            final(self).calc_fn() == old(self).calc_fn(),
    {
        let mut k: usize = 0;
        while k < ids.len()
            invariant
                self.store_sound(),
                Self::same_layout(*old(self), *self),
                (reader as int) < old(self).num_cells(),
                old(self).is_memo(reader as int),
                ids@ == old(self).memo_inputs(reader as int),
                forall|j: int|
                    0 <= j < ids@.len() ==> (#[trigger] ids@[j] as int) < old(self).num_cells(),
                k <= ids@.len(),
                forall|i: int|
                    0 <= i < old(self).num_cells() ==> #[trigger] self.value_of(i)
                        == old(self).value_of(i),
                forall|i: int|
                    0 <= i < old(self).num_cells() ==> #[trigger] self.subscribers_of(i) == (
                    if ids@.subrange(0, k as int).contains(i as usize) && !old(
                        self,
                    ).subscribers_of(i).contains(reader) {
                        old(self).subscribers_of(i).push(reader)
                    } else {
                        old(self).subscribers_of(i)
                    }),
                self.pending_effects() == old(self).pending_effects(),
                self.num_recomputes() == old(self).num_recomputes(),
                self.calc_fn() == old(self).calc_fn(),
            decreases ids@.len() - k,
        {
            let j = ids[k];
            let ghost mid = *self;
            self.subscribe(j, reader);
            k += 1;
            proof {
                let pre = *old(self);
                let pfx0 = ids@.subrange(0, k as int - 1);
                let pfx1 = ids@.subrange(0, k as int);
                assert(pfx1 =~= pfx0.push(j));
                assert forall|i: int|
                    0 <= i < pre.num_cells() implies #[trigger] self.subscribers_of(i) == (
                if pfx1.contains(i as usize) && !pre.subscribers_of(i).contains(reader) {
                    pre.subscribers_of(i).push(reader)
                } else {
                    pre.subscribers_of(i)
                }) by {
                    assert(vstd::std_specs::vec::spec_vec_len(&pre.cells) == pre.cells@.len());
                    if pfx1.contains(i as usize) {
                        let w = choose|w: int| 0 <= w < pfx1.len() && pfx1[w] == i as usize;
                        if w < pfx0.len() {
                            assert(pfx0[w] == i as usize);
                            assert(pfx0.contains(i as usize));
                        } else {
                            assert(w == pfx0.len());
                            assert(pfx1[w] == j);
                            assert((i as usize) as int == i);
                            assert(i == j as int);
                        }
                    }
                    if pfx0.contains(i as usize) {
                        let w = choose|w: int| 0 <= w < pfx0.len() && pfx0[w] == i as usize;
                        assert(pfx1[w] == i as usize);
                        assert(pfx1.contains(i as usize));
                    }
                    if i == j as int {
                        assert(pfx1[pfx0.len() as int] == j);
                        assert(pfx1.contains(j));
                        if pre.subscribers_of(i).contains(reader) {
                            assert(mid.subscribers_of(i) == pre.subscribers_of(i));
                            assert(self.subscribers_of(i) == pre.subscribers_of(i));
                        } else if pfx0.contains(i as usize) {
                            assert(mid.subscribers_of(i) == pre.subscribers_of(i).push(reader));
                            assert(mid.subscribers_of(i)[pre.subscribers_of(i).len() as int]
                                == reader);
                            assert(mid.subscribers_of(i).contains(reader));
                            assert(self.subscribers_of(i) == mid.subscribers_of(i));
                        } else {
                            assert(mid.subscribers_of(i) == pre.subscribers_of(i));
                            assert(self.subscribers_of(i) == pre.subscribers_of(i).push(reader));
                        }
                    } else {
                        assert(self.subscribers_of(i) == mid.subscribers_of(i));
                        assert(pfx1.contains(i as usize) == pfx0.contains(i as usize));
                    }
                }
            }
        }
        proof {
            let pre = *old(self);
            assert(ids@.subrange(0, ids@.len() as int) =~= ids@);
            assert forall|t: int|
                0 <= t < self.memo_inputs(reader as int).len() implies #[trigger] self.subscribers_of(
                self.memo_inputs(reader as int)[t] as int,
            ).contains(reader) by {
                let c = ids@[t];
                assert(ids@.contains(c));
                let ci = c as int;
                if !pre.subscribers_of(ci).contains(reader) {
                    assert(self.subscribers_of(ci) == pre.subscribers_of(ci).push(reader));
                    assert(self.subscribers_of(ci)[pre.subscribers_of(ci).len() as int] == reader);
                    assert(self.subscribers_of(ci).contains(reader));
                } else {
                    assert(self.subscribers_of(ci) == pre.subscribers_of(ci));
                }
            }
        }
    }

    /// One full run of memo `reader`'s computation: re-subscribe `reader` to
    /// each of its declared inputs, read their current values, and apply the
    /// calculation function. Returns the computed value without storing it.
    pub fn read_and_derive(&mut self, reader: usize) -> (v: T)
        requires
            old(self).engine_ready(),
            old(self).store_sound(),
            (reader as int) < old(self).num_cells(),
            old(self).is_memo(reader as int),
        ensures
            final(self).engine_ready(),
            final(self).store_sound(),
            Self::same_layout(*old(self), *final(self)),
            forall|i: int|
                0 <= i < old(self).num_cells() ==> #[trigger] final(self).value_of(i)
                    == old(self).value_of(i),
            forall|i: int|
                0 <= i < old(self).num_cells() ==> #[trigger] final(self).subscribers_of(i) == (
                if old(self).memo_inputs(reader as int).contains(i as usize) && !old(
                    self,
                ).subscribers_of(i).contains(reader) {
                    old(self).subscribers_of(i).push(reader)
                } else {
                    old(self).subscribers_of(i)
                }),
            final(self).fully_subscribed(reader as int),
            final(self).pending_effects() == old(self).pending_effects(),
            final(self).num_recomputes() == sat_inc(old(self).num_recomputes()),
            final(self).calc_fn() == old(self).calc_fn(),
            exists|vals: Vec<T>|
                {
                    &&& vals@ == final(self).input_values(reader as int)
                    &&& #[trigger] call_ensures(
                        final(self).calc_fn(),
                        (final(self).memo_op(reader as int), vals),
                        v,
                    )
                },
    {
        let (ids, op) = self.plan_of(reader);
        proof {
            assert(old(self).cell_sound(reader as int));
            assert forall|k: int|
                0 <= k < ids@.len() implies (#[trigger] ids@[k] as int) < old(self).num_cells() by {
                assert((old(self).memo_inputs(reader as int)[k] as int) < reader as int);
            }
        }
        self.subscribe_ids(&ids, reader);
        let ghost mid = *self;
        proof {
            assert forall|k: int|
                0 <= k < ids@.len() implies (#[trigger] ids@[k] as int) < self.num_cells() by {}
        }
        let vals = self.collect_values(&ids);
        let ghost w = vals;
        let v = (self.calc)(op, vals);
        if self.recomputes < u64::MAX {
            self.recomputes = self.recomputes + 1;
        }
        proof {
            lemma_calc_total_carries(*old(self), *self);
            assert(self.cells == mid.cells);
            assert(self.effects == mid.effects);
            let pre = *old(self);
            assert forall|i: int|
                0 <= i < pre.num_cells() implies #[trigger] self.is_memo(i) == pre.is_memo(i) by {
                assert(mid.is_memo(i) == pre.is_memo(i));
            }
            assert forall|i: int|
                0 <= i < pre.num_cells() && pre.is_memo(i) implies #[trigger] self.memo_inputs(i)
                == pre.memo_inputs(i) by {
                assert(mid.memo_inputs(i) == pre.memo_inputs(i));
            }
            assert forall|i: int|
                0 <= i < pre.num_cells() && pre.is_memo(i) implies #[trigger] self.memo_op(i)
                == pre.memo_op(i) by {
                assert(mid.memo_op(i) == pre.memo_op(i));
            }
            assert forall|i: int|
                0 <= i < pre.num_cells() implies #[trigger] self.effect_of(i) == pre.effect_of(
                i,
            ) by {
                assert(mid.effect_of(i) == pre.effect_of(i));
            }
            assert forall|i: int|
                0 <= i < pre.num_cells() implies #[trigger] self.value_of(i) == pre.value_of(i) by {
                assert(mid.value_of(i) == pre.value_of(i));
            }
            assert forall|i: int|
                0 <= i < pre.num_cells() implies #[trigger] self.subscribers_of(i)
                == mid.subscribers_of(i) by {}
            assert forall|i: int| 0 <= i < self.num_cells() implies self.cell_sound(i) by {
                assert(mid.cell_sound(i));
                assert forall|t: int|
                    0 <= t < mid.num_cells() implies #[trigger] self.is_memo(t) == mid.is_memo(
                    t,
                ) by {}
                assert forall|t: int|
                    0 <= t < mid.num_cells() && mid.is_memo(t) implies #[trigger] self.memo_inputs(
                    t,
                ) == mid.memo_inputs(t) by {}
                lemma_cell_sound_preserved(mid, *self, i);
            }
            assert forall|t: int|
                0 <= t < self.memo_inputs(reader as int).len() implies #[trigger] self.subscribers_of(
                self.memo_inputs(reader as int)[t] as int,
            ).contains(reader) by {
                assert(mid.memo_inputs(reader as int) == self.memo_inputs(reader as int));
                assert(mid.fully_subscribed(reader as int));
                assert(((reader as int) as usize) == reader);
                assert(mid.subscribers_of(mid.memo_inputs(reader as int)[t] as int).contains(
                    (reader as int) as usize,
                ));
            }
            assert(self.memo_inputs(reader as int) == ids@);
            assert forall|t: int|
                0 <= t < ids@.len() implies w@[t] == self.value_of(ids@[t] as int) by {}
            assert forall|t: int|
                0 <= t < ids@.len() implies self.input_values(reader as int)[t] == self.value_of(
                ids@[t] as int,
            ) by {}
            assert(w@ =~= self.input_values(reader as int));
            assert(self.memo_op(reader as int) == op);
            assert(self.calc_fn() == old(self).calc_fn());
            assert(call_ensures(self.calc_fn(), (self.memo_op(reader as int), w), v));
        }
        v
    }

    /// Create a new memo cell that computes `op` over the cells named by
    /// `inputs`, run the computation once to populate its value, and
    /// subscribe it to each input.
    pub fn new_memo(&mut self, inputs: Vec<usize>, op: u64) -> (m: Memo)
        requires
            old(self).wf(),
            forall|k: int|
                0 <= k < inputs@.len() ==> (#[trigger] inputs@[k] as int) < old(self).num_cells(),
        ensures
            final(self).wf(),
            m.spec_entity() == old(self).num_cells(),
            final(self).num_cells() == old(self).num_cells() + 1,
            final(self).is_memo(m.spec_entity()),
            final(self).memo_inputs(m.spec_entity()) == inputs@,
            final(self).memo_op(m.spec_entity()) == op,
            final(self).effect_of(m.spec_entity()) is None,
            final(self).memo_ok(m.spec_entity()),
            forall|i: int|
                0 <= i < old(self).num_cells() ==> #[trigger] final(self).value_of(i)
                    == old(self).value_of(i),
            forall|i: int|
                0 <= i < old(self).num_cells() ==> #[trigger] final(self).is_memo(i)
                    == old(self).is_memo(i),
            forall|i: int|
                0 <= i < old(self).num_cells() && old(self).is_memo(i)
                    ==> #[trigger] final(self).memo_inputs(i) == old(self).memo_inputs(i),
            forall|i: int|
                0 <= i < old(self).num_cells() && old(self).is_memo(i)
                    ==> #[trigger] final(self).memo_op(i) == old(self).memo_op(i),
            forall|i: int|
                0 <= i < old(self).num_cells() ==> #[trigger] final(self).effect_of(i)
                    == old(self).effect_of(i),
            forall|i: int|
                0 <= i < old(self).num_cells() ==> #[trigger] final(self).subscribers_of(i) == (
                if inputs@.contains(i as usize) {
                    old(self).subscribers_of(i).push((m.spec_entity() as usize))
                } else {
                    old(self).subscribers_of(i)
                }),
            final(self).pending_effects() == old(self).pending_effects(),
            final(self).num_recomputes() == sat_inc(old(self).num_recomputes()),
            final(self).calc_fn() == old(self).calc_fn(),
    {
        let id = self.cells.len();
        let vals = self.collect_values(&inputs);
        let ghost w = vals;
        proof {
            assert(old(self).calc_total());
            assert(call_requires(old(self).calc_fn(), (op, w)));
        }
        let v = (self.calc)(op, vals);
        proof {
            assert(call_ensures(old(self).calc_fn(), (op, w), v));
        }
        if self.recomputes < u64::MAX {
            self.recomputes = self.recomputes + 1;
        }
        let ids = copy_ids(&inputs);
        self.cells.push(
            RxObservableData {
                data: v,
                subscribers: Vec::new(),
                plan: Some(MemoPlan { inputs, op }),
                effect: None,
            },
        );
        proof {
            let pre = *old(self);
            let idi = id as int;
            assert forall|i: int| 0 <= i < pre.num_cells() implies self.cells@[i]
                == pre.cells@[i] by {}
            assert(self.is_memo(idi));
            assert(self.memo_inputs(idi) == ids@);
            assert(self.memo_op(idi) == op);
            assert(self.subscribers_of(idi) =~= Seq::<usize>::empty());
            assert forall|i: int| 0 <= i < self.num_cells() implies self.cell_sound(i) by {
                if i < pre.num_cells() {
                    assert(pre.cell_sound(i));
                    lemma_cell_sound_preserved(pre, *self, i);
                } else {
                    assert forall|k: int|
                        0 <= k < self.memo_inputs(i).len() implies (
                    #[trigger] self.memo_inputs(i)[k] as int) < i by {
                        assert((ids@[k] as int) < pre.num_cells());
                    }
                }
            }
            // no existing subscriber list can hold the fresh id
            assert forall|i: int|
                0 <= i < pre.num_cells() implies !self.subscribers_of(i).contains(id) by {
                if self.subscribers_of(i).contains(id) {
                    let t = choose|t: int|
                        0 <= t < self.subscribers_of(i).len() && self.subscribers_of(i)[t] == id;
                    assert(pre.cell_sound(i));
                    assert((pre.subscribers_of(i)[t] as int) < pre.num_cells());
                }
            }
        }
        let ghost st1 = *self;
        self.subscribe_ids(&ids, id);
        proof {
            let pre = *old(self);
            let idi = id as int;
            lemma_calc_total_carries(pre, *self);
            assert forall|i: int|
                0 <= i < st1.num_cells() implies #[trigger] self.value_of(i) == st1.value_of(i)
                && self.subscribers_of(i) == (if ids@.contains(i as usize)
                && !st1.subscribers_of(i).contains(id) {
                st1.subscribers_of(i).push(id)
            } else {
                st1.subscribers_of(i)
            }) by {}
            assert forall|i: int|
                0 <= i < pre.num_cells() implies #[trigger] self.subscribers_of(i) == (
            if inputs@.contains(i as usize) {
                pre.subscribers_of(i).push(id)
            } else {
                pre.subscribers_of(i)
            }) by {
                assert(st1.subscribers_of(i) == pre.subscribers_of(i));
                assert(!st1.subscribers_of(i).contains(id));
            }
            assert(self.is_memo(idi));
            assert(self.memo_inputs(idi) == ids@);
            assert(self.memo_op(idi) == op);
            // values are untouched throughout
            assert forall|i: int|
                0 <= i < pre.num_cells() implies #[trigger] self.value_of(i) == pre.value_of(i) by {}
            assert(self.value_of(idi) == v);
            // the new memo's cached value is current
            assert forall|t: int|
                0 <= t < ids@.len() implies #[trigger] self.input_values(idi)[t] == w@[t] by {
                assert(self.input_values(idi)[t] == self.value_of(ids@[t] as int));
                assert(st1.value_of(ids@[t] as int) == pre.value_of(ids@[t] as int));
                assert(self.value_of(ids@[t] as int) == st1.value_of(ids@[t] as int));
                assert(w@[t] == pre.value_of(inputs@[t] as int));
            }
            assert(w@ =~= self.input_values(idi));
            assert(call_ensures(self.calc_fn(), (self.memo_op(idi), w), self.value_of(idi)));
            assert(self.memo_ok(idi));
            // every old memo stays settled
            assert forall|t: int, s: usize|
                0 <= t < pre.num_cells() && #[trigger] pre.subscribers_of(t).contains(s) implies
                self.subscribers_of(t).contains(s) by {
                if !ids@.contains(t as usize) || pre.subscribers_of(t).contains(id) {
                    assert(self.subscribers_of(t) == pre.subscribers_of(t));
                } else {
                    assert(self.subscribers_of(t) == pre.subscribers_of(t).push(id));
                    let u = choose|u: int|
                        0 <= u < pre.subscribers_of(t).len() && pre.subscribers_of(t)[u] == s;
                    assert(self.subscribers_of(t)[u] == s);
                }
            }
            assert forall|q: int|
                0 <= q < self.num_cells() && self.is_memo(q) implies (self.memo_ok(q)
                && self.fully_subscribed(q)) || Seq::<usize>::empty().contains(q as usize) by {
                if q < pre.num_cells() {
                    assert(pre.is_memo(q));
                    assert(pre.memo_ok(q) && pre.fully_subscribed(q));
                    assert(pre.cell_sound(q));
                    assert forall|k: int|
                        0 <= k < pre.memo_inputs(q).len() implies 0 <= (
                    #[trigger] pre.memo_inputs(q)[k] as int) < pre.num_cells() by {
                        assert((pre.memo_inputs(q)[k] as int) < q);
                    }
                    lemma_settled_carries_over(pre, *self, q);
                } else {
                    assert(q == idi);
                }
            }
        }
        Memo::from_entity(id)
    }

    /// Annotate the observed cell with a deferred effect. Whenever the cell's
    /// value changes from then on, one entry carrying `effect` and the new
    /// value is queued for the next flush. A cell holds at most one effect
    /// annotation; a second call replaces the first.
    pub fn new_deferred_effect<O: Observable>(&mut self, observable: O, effect: u64) -> (e: Effect)
        requires
            old(self).wf(),
            0 <= observable.spec_entity() < old(self).num_cells(),
        ensures
            final(self).wf(),
            e.spec_entity() == observable.spec_entity(),
            final(self).effect_of(observable.spec_entity()) == Some(effect),
            final(self).num_cells() == old(self).num_cells(),
            forall|i: int|
                0 <= i < old(self).num_cells() && i != observable.spec_entity()
                    ==> #[trigger] final(self).effect_of(i) == old(self).effect_of(i),
            forall|i: int|
                0 <= i < old(self).num_cells() ==> #[trigger] final(self).value_of(i)
                    == old(self).value_of(i),
            forall|i: int|
                0 <= i < old(self).num_cells() ==> #[trigger] final(self).subscribers_of(i)
                    == old(self).subscribers_of(i),
            forall|i: int|
                0 <= i < old(self).num_cells() ==> #[trigger] final(self).is_memo(i)
                    == old(self).is_memo(i),
            forall|i: int|
                0 <= i < old(self).num_cells() && old(self).is_memo(i)
                    ==> #[trigger] final(self).memo_inputs(i) == old(self).memo_inputs(i)
                    && final(self).memo_op(i) == old(self).memo_op(i),
            final(self).pending_effects() == old(self).pending_effects(),
            final(self).num_recomputes() == old(self).num_recomputes(),
            final(self).calc_fn() == old(self).calc_fn(),
    {
        let id = observable.reactive_entity();
        self.cells[id].effect = Some(effect);
        proof {
            let pre = *old(self);
            assert forall|i: int|
                0 <= i < pre.num_cells() && i != id as int implies self.cells@[i]
                == pre.cells@[i] by {}
            assert(self.cells@[id as int].data == pre.cells@[id as int].data);
            assert(self.cells@[id as int].subscribers == pre.cells@[id as int].subscribers);
            assert(self.cells@[id as int].plan == pre.cells@[id as int].plan);
            lemma_wf_preserved_values_subs(pre, *self);
        }
        Effect::from_entity(id)
    }

    /// The effect annotation of the cell the handle observes, if any.
    pub fn effect_system(&self, effect: Effect) -> (r: Option<u64>)
        requires
            0 <= effect.spec_entity() < self.num_cells(),
        ensures
            r == self.effect_of(effect.spec_entity()),
    {
        self.cells[effect.reactive_entity()].effect
    }

    /// Drain the deferred-effect queue in insertion order: apply `apply` to
    /// the running external state, each entry's tag and its captured value in
    /// turn, and return the final external state. The queue is taken out
    /// whole before the drain starts and is empty afterwards; the cells are
    /// untouched. The handler has no access to the context, so a flush can
    /// never queue further effects into the list it is draining.
    pub fn flush_effects<E, G: Fn(E, u64, T) -> E>(&mut self, external: E, apply: G) -> (r: E)
        requires
            old(self).wf(),
            forall|args: (E, u64, T)| #[trigger] call_requires(apply, args),
        ensures
            final(self).wf(),
            final(self).pending_effects() == Seq::<EffectData<T>>::empty(),
            Self::same_layout(*old(self), *final(self)),
            forall|i: int|
                0 <= i < old(self).num_cells() ==> #[trigger] final(self).value_of(i)
                    == old(self).value_of(i),
            forall|i: int|
                0 <= i < old(self).num_cells() ==> #[trigger] final(self).subscribers_of(i)
                    == old(self).subscribers_of(i),
            final(self).num_recomputes() == old(self).num_recomputes(),
            final(self).calc_fn() == old(self).calc_fn(),
            crate::effect::flush_steps(apply, old(self).pending_effects(), external, r),
    {
        let ghost e0 = external;
        let queue = self.effects.take_all();
        proof {
            assert(self.cells == old(self).cells);
            lemma_wf_preserved_values_subs(*old(self), *self);
        }
        let mut ext = external;
        let mut k: usize = 0;
        while k < queue.len()
            invariant
                forall|args: (E, u64, T)| #[trigger] call_requires(apply, args),
                clone_respects_eq::<T>(),
                k <= queue@.len(),
                crate::effect::flush_steps(apply, queue@.subrange(0, k as int), e0, ext),
            decreases queue@.len() - k,
        {
            let entry_tag = queue[k].effect_tag();
            let v = queue[k].value().clone();
            proof {
                assert(cloned::<T>(queue@[k as int].spec_value(), v));
                assert(v == queue@[k as int].spec_value());
            }
            let ghost prev = ext;
            ext = apply(ext, entry_tag, v);
            k += 1;
            proof {
                let pfx1 = queue@.subrange(0, k as int);
                assert(pfx1.drop_last() =~= queue@.subrange(0, k as int - 1));
                assert(pfx1.last() == queue@[k as int - 1]);
                assert(call_ensures(
                    apply,
                    (prev, queue@[k as int - 1].spec_tag(), queue@[k as int - 1].spec_value()),
                    ext,
                ));
                assert(crate::effect::flush_steps(apply, pfx1, e0, ext));
            }
        }
        proof {
            assert(queue@.subrange(0, queue@.len() as int) =~= queue@);
        }
        ext
    }

    /// How many subscribers the observed cell currently has.
    pub fn subscriber_count<O: Observable>(&self, observable: O) -> (r: usize)
        requires
            0 <= observable.spec_entity() < self.num_cells(),
        ensures
            r == self.subscribers_of(observable.spec_entity()).len(),
    {
        self.cells[observable.reactive_entity()].subscribers.len()
    }

    /// How many times a memo computation has run so far (saturating).
    pub fn recompute_count(&self) -> (r: u64)
        ensures
            r == self.num_recomputes(),
    {
        self.recomputes
    }

    /// How many deferred effects are queued and not yet flushed.
    pub fn pending_effect_count(&self) -> (r: usize)
        ensures
            r == self.pending_effects().len(),
    {
        self.effects.len()
    }
}

/// The calculation function's totality carries to any context holding the
/// same function.
pub(crate) proof fn lemma_calc_total_carries<T: PartialEq + Clone, F: Fn(u64, Vec<T>) -> T>(
    pre: ReactiveContext<T, F>,
    post: ReactiveContext<T, F>,
)
    requires
        pre.calc_total(),
        post.calc_fn() == pre.calc_fn(),
    ensures
        post.calc_total(),
{
    assert forall|args: (u64, Vec<T>)| #[trigger] call_requires(post.calc_fn(), args) by {
        assert(call_requires(pre.calc_fn(), args));
    }
}

/// Cell `i`'s soundness carries from `pre` to `post` when the store layout is
/// unchanged and `i`'s subscriber list is the same.
proof fn lemma_cell_sound_preserved<T: PartialEq + Clone, F: Fn(u64, Vec<T>) -> T>(
    pre: ReactiveContext<T, F>,
    post: ReactiveContext<T, F>,
    i: int,
)
    requires
        0 <= i < pre.num_cells(),
        pre.cell_sound(i),
        pre.num_cells() <= post.num_cells(),
        forall|t: int| 0 <= t < pre.num_cells() ==> #[trigger] post.is_memo(t) == pre.is_memo(t),
        forall|t: int|
            0 <= t < pre.num_cells() && pre.is_memo(t) ==> #[trigger] post.memo_inputs(t)
                == pre.memo_inputs(t),
        post.subscribers_of(i) == pre.subscribers_of(i),
    ensures
        post.cell_sound(i),
{
    if post.is_memo(i) {
        assert(post.memo_inputs(i) == pre.memo_inputs(i));
        assert forall|k: int|
            0 <= k < post.memo_inputs(i).len() implies (#[trigger] post.memo_inputs(i)[k] as int)
            < i by {
            assert((pre.memo_inputs(i)[k] as int) < i);
        }
    }
    assert forall|k: int|
        0 <= k < post.subscribers_of(i).len() implies {
        let s = (#[trigger] post.subscribers_of(i)[k]) as int;
        &&& s < post.num_cells()
        &&& post.is_memo(s)
        &&& post.memo_inputs(s).contains(i as usize)
    } by {
        let s = (pre.subscribers_of(i)[k]) as int;
        assert(pre.subscribers_of(i)[k] == post.subscribers_of(i)[k]);
        assert(s < pre.num_cells() && pre.is_memo(s) && pre.memo_inputs(s).contains(i as usize));
    }
}

/// Cell `i` stays sound when its subscriber list is emptied and the layout
/// is otherwise unchanged.
proof fn lemma_cell_sound_emptied<T: PartialEq + Clone, F: Fn(u64, Vec<T>) -> T>(
    pre: ReactiveContext<T, F>,
    post: ReactiveContext<T, F>,
    i: int,
)
    requires
        0 <= i < pre.num_cells(),
        pre.cell_sound(i),
        pre.num_cells() <= post.num_cells(),
        forall|t: int| 0 <= t < pre.num_cells() ==> #[trigger] post.is_memo(t) == pre.is_memo(t),
        forall|t: int|
            0 <= t < pre.num_cells() && pre.is_memo(t) ==> #[trigger] post.memo_inputs(t)
                == pre.memo_inputs(t),
        post.subscribers_of(i) == Seq::<usize>::empty(),
    ensures
        post.cell_sound(i),
{
    if post.is_memo(i) {
        assert(post.memo_inputs(i) == pre.memo_inputs(i));
        assert forall|k: int|
            0 <= k < post.memo_inputs(i).len() implies (#[trigger] post.memo_inputs(i)[k] as int)
            < i by {
            assert((pre.memo_inputs(i)[k] as int) < i);
        }
    }
}

/// Cell `i` stays sound when one new reader — a memo of the store that
/// declares `i` as an input and was not subscribed yet — is appended to its
/// subscriber list.
proof fn lemma_cell_sound_after_push<T: PartialEq + Clone, F: Fn(u64, Vec<T>) -> T>(
    pre: ReactiveContext<T, F>,
    post: ReactiveContext<T, F>,
    i: int,
    reader: usize,
)
    requires
        0 <= i < pre.num_cells(),
        pre.cell_sound(i),
        pre.num_cells() <= post.num_cells(),
        forall|t: int| 0 <= t < pre.num_cells() ==> #[trigger] post.is_memo(t) == pre.is_memo(t),
        forall|t: int|
            0 <= t < pre.num_cells() && pre.is_memo(t) ==> #[trigger] post.memo_inputs(t)
                == pre.memo_inputs(t),
        !pre.subscribers_of(i).contains(reader),
        (reader as int) < pre.num_cells(),
        pre.is_memo(reader as int),
        pre.memo_inputs(reader as int).contains(i as usize),
        post.subscribers_of(i) == pre.subscribers_of(i).push(reader),
    ensures
        post.cell_sound(i),
{
    if post.is_memo(i) {
        assert(post.memo_inputs(i) == pre.memo_inputs(i));
        assert forall|k: int|
            0 <= k < post.memo_inputs(i).len() implies (#[trigger] post.memo_inputs(i)[k] as int)
            < i by {
            assert((pre.memo_inputs(i)[k] as int) < i);
        }
    }
    let pre_subs = pre.subscribers_of(i);
    let post_subs = post.subscribers_of(i);
    assert forall|a: int, b: int|
        0 <= a < post_subs.len() && 0 <= b < post_subs.len() && a != b implies post_subs[a]
        != post_subs[b] by {
        if a < pre_subs.len() && b < pre_subs.len() {
            assert(pre_subs.no_duplicates());
        } else if a < pre_subs.len() {
            assert(pre_subs[a] != reader);
        } else if b < pre_subs.len() {
            assert(pre_subs[b] != reader);
        }
    }
    assert(post_subs.no_duplicates());
    assert forall|k: int|
        0 <= k < post_subs.len() implies {
        let s = (#[trigger] post_subs[k]) as int;
        &&& s < post.num_cells()
        &&& post.is_memo(s)
        &&& post.memo_inputs(s).contains(i as usize)
    } by {
        if k < pre_subs.len() {
            let s = (pre_subs[k]) as int;
            assert(pre_subs[k] == post_subs[k]);
            assert(s < pre.num_cells() && pre.is_memo(s) && pre.memo_inputs(s).contains(
                i as usize,
            ));
        } else {
            assert(post_subs[k] == reader);
        }
    }
}

/// A context that grew by cells — every old cell unchanged, new cells not
/// referenced by old ones — keeps every old memo settled.
proof fn lemma_extend_keeps_settled<T: PartialEq + Clone, F: Fn(u64, Vec<T>) -> T>(
    pre: ReactiveContext<T, F>,
    post: ReactiveContext<T, F>,
)
    requires
        pre.num_cells() <= post.num_cells(),
        ReactiveContext::unchanged_below(pre, post, pre.num_cells()),
        post.calc_fn() == pre.calc_fn(),
        pre.store_sound(),
        pre.converging(Seq::<usize>::empty()),
        forall|i: int|
            pre.num_cells() <= i < post.num_cells() ==> !(#[trigger] post.is_memo(i))
                && post.subscribers_of(i) == Seq::<usize>::empty(),
    ensures
        post.store_sound(),
        post.converging(Seq::<usize>::empty()),
{
    assert forall|i: int| 0 <= i < post.num_cells() implies post.cell_sound(i) by {
        if i < pre.num_cells() {
            assert(ReactiveContext::cell_same(pre, post, i));
            assert(pre.cell_sound(i));
            assert forall|k: int|
                0 <= k < post.subscribers_of(i).len() implies {
                let s = (#[trigger] post.subscribers_of(i)[k]) as int;
                &&& s < post.num_cells()
                &&& post.is_memo(s)
                &&& post.memo_inputs(s).contains(i as usize)
            } by {
                let s = post.subscribers_of(i)[k] as int;
                assert(s < pre.num_cells());
                assert(ReactiveContext::cell_same(pre, post, s));
            }
            if post.is_memo(i) {
                assert(pre.memo_inputs(i) == post.memo_inputs(i));
            }
        }
    }
    assert forall|t: int|
        0 <= t < pre.num_cells() implies #[trigger] post.is_memo(t) == pre.is_memo(t) by {
        assert(ReactiveContext::cell_same(pre, post, t));
    }
    assert forall|t: int|
        0 <= t < pre.num_cells() implies #[trigger] post.value_of(t) == pre.value_of(t) by {
        assert(ReactiveContext::cell_same(pre, post, t));
    }
    assert forall|t: int|
        0 <= t < pre.num_cells() && pre.is_memo(t) implies #[trigger] post.memo_inputs(t)
        == pre.memo_inputs(t) by {
        assert(ReactiveContext::cell_same(pre, post, t));
    }
    assert forall|t: int|
        0 <= t < pre.num_cells() && pre.is_memo(t) implies #[trigger] post.memo_op(t)
        == pre.memo_op(t) by {
        assert(ReactiveContext::cell_same(pre, post, t));
    }
    assert forall|t: int, s: usize|
        0 <= t < pre.num_cells() && #[trigger] pre.subscribers_of(t).contains(s) implies
        post.subscribers_of(t).contains(s) by {
        assert(ReactiveContext::cell_same(pre, post, t));
    }
    assert forall|m: int|
        0 <= m < post.num_cells() && post.is_memo(m) implies (post.memo_ok(m)
        && post.fully_subscribed(m)) || Seq::<usize>::empty().contains(m as usize) by {
        assert(m < pre.num_cells());
        assert(pre.memo_ok(m) && pre.fully_subscribed(m));
        assert(pre.cell_sound(m));
        assert forall|k: int|
            0 <= k < pre.memo_inputs(m).len() implies 0 <= (#[trigger] pre.memo_inputs(m)[k] as int)
            < pre.num_cells() by {
            assert((pre.memo_inputs(m)[k] as int) < m);
        }
        lemma_settled_carries_over(pre, post, m);
    }
}

/// A memo stays settled when the store layout and all values carry over
/// unchanged and subscriber lists only grow.
pub(crate) proof fn lemma_settled_carries_over<T: PartialEq + Clone, F: Fn(u64, Vec<T>) -> T>(
    pre: ReactiveContext<T, F>,
    post: ReactiveContext<T, F>,
    m: int,
)
    requires
        0 <= m < pre.num_cells(),
        pre.is_memo(m),
        pre.memo_ok(m),
        pre.fully_subscribed(m),
        post.calc_fn() == pre.calc_fn(),
        pre.num_cells() <= post.num_cells(),
        forall|t: int| 0 <= t < pre.num_cells() ==> #[trigger] post.is_memo(t) == pre.is_memo(t),
        forall|t: int|
            0 <= t < pre.num_cells() && pre.is_memo(t) ==> #[trigger] post.memo_inputs(t)
                == pre.memo_inputs(t),
        forall|t: int|
            0 <= t < pre.num_cells() && pre.is_memo(t) ==> #[trigger] post.memo_op(t)
                == pre.memo_op(t),
        forall|t: int| 0 <= t < pre.num_cells() ==> #[trigger] post.value_of(t) == pre.value_of(t),
        forall|t: int, s: usize|
            0 <= t < pre.num_cells() && #[trigger] pre.subscribers_of(t).contains(s)
                ==> post.subscribers_of(t).contains(s),
        forall|k: int|
            0 <= k < pre.memo_inputs(m).len() ==> 0 <= (#[trigger] pre.memo_inputs(m)[k] as int)
                < pre.num_cells(),
    ensures
        post.memo_ok(m),
        post.fully_subscribed(m),
{
    assert(post.memo_inputs(m) == pre.memo_inputs(m));
    assert(post.input_values(m) =~= pre.input_values(m));
    let vals = choose|vals: Vec<T>|
        {
            &&& vals@ == pre.input_values(m)
            &&& #[trigger] call_ensures(pre.calc_fn(), (pre.memo_op(m), vals), pre.value_of(m))
        };
    assert(vals@ == post.input_values(m));
    assert(call_ensures(post.calc_fn(), (post.memo_op(m), vals), post.value_of(m)));
    assert forall|k: int|
        0 <= k < post.memo_inputs(m).len() implies #[trigger] post.subscribers_of(
        post.memo_inputs(m)[k] as int,
    ).contains(m as usize) by {
        let c = pre.memo_inputs(m)[k] as int;
        assert(pre.subscribers_of(c).contains(m as usize));
    }
}

/// Well-formedness carries over to any context with the same layout, the
/// same values and the same subscriber lists.
pub(crate) proof fn lemma_wf_preserved_values_subs<T: PartialEq + Clone, F: Fn(u64, Vec<T>) -> T>(
    pre: ReactiveContext<T, F>,
    post: ReactiveContext<T, F>,
)
    requires
        pre.wf(),
        post.num_cells() == pre.num_cells(),
        post.calc_fn() == pre.calc_fn(),
        forall|i: int| 0 <= i < pre.num_cells() ==> #[trigger] post.is_memo(i) == pre.is_memo(i),
        forall|i: int|
            0 <= i < pre.num_cells() && pre.is_memo(i) ==> #[trigger] post.memo_inputs(i)
                == pre.memo_inputs(i),
        forall|i: int|
            0 <= i < pre.num_cells() && pre.is_memo(i) ==> #[trigger] post.memo_op(i)
                == pre.memo_op(i),
        forall|i: int| 0 <= i < pre.num_cells() ==> #[trigger] post.value_of(i) == pre.value_of(i),
        forall|i: int|
            0 <= i < pre.num_cells() ==> #[trigger] post.subscribers_of(i) == pre.subscribers_of(
                i,
            ),
    ensures
        post.wf(),
{
    lemma_calc_total_carries(pre, post);
    assert forall|i: int| 0 <= i < post.num_cells() implies post.cell_sound(i) by {
        assert(pre.cell_sound(i));
        lemma_cell_sound_preserved(pre, post, i);
    }
    assert forall|t: int, s: usize|
        0 <= t < pre.num_cells() && #[trigger] pre.subscribers_of(t).contains(s) implies
        post.subscribers_of(t).contains(s) by {
        assert(post.subscribers_of(t) == pre.subscribers_of(t));
    }
    assert forall|m: int|
        0 <= m < post.num_cells() && post.is_memo(m) implies (post.memo_ok(m)
        && post.fully_subscribed(m)) || Seq::<usize>::empty().contains(m as usize) by {
        assert(pre.is_memo(m));
        assert(!Seq::<usize>::empty().contains(m as usize));
        assert(pre.memo_ok(m) && pre.fully_subscribed(m));
        assert(pre.cell_sound(m));
        assert forall|k: int|
            0 <= k < pre.memo_inputs(m).len() implies 0 <= (#[trigger] pre.memo_inputs(m)[k] as int)
            < pre.num_cells() by {
            assert((pre.memo_inputs(m)[k] as int) < m);
        }
        lemma_settled_carries_over(pre, post, m);
    }
}

/// A store never holds more cells than `usize` can index.
pub(crate) proof fn lemma_num_cells_bounded<T: PartialEq + Clone, F: Fn(u64, Vec<T>) -> T>(
    ctx: ReactiveContext<T, F>,
)
    ensures
        0 <= ctx.num_cells() <= usize::MAX as int,
{
    assert(vstd::std_specs::vec::spec_vec_len(&ctx.cells) == ctx.cells@.len());
}

/// `same_layout` composes.
pub(crate) proof fn lemma_same_layout_trans<T: PartialEq + Clone, F: Fn(u64, Vec<T>) -> T>(
    a: ReactiveContext<T, F>,
    b: ReactiveContext<T, F>,
    c: ReactiveContext<T, F>,
)
    requires
        ReactiveContext::same_layout(a, b),
        ReactiveContext::same_layout(b, c),
    ensures
        ReactiveContext::same_layout(a, c),
{
    assert forall|i: int| 0 <= i < a.num_cells() implies #[trigger] c.is_memo(i) == a.is_memo(
        i,
    ) by {
        assert(b.is_memo(i) == a.is_memo(i));
        assert(c.is_memo(i) == b.is_memo(i));
    }
    assert forall|i: int|
        0 <= i < a.num_cells() && a.is_memo(i) implies #[trigger] c.memo_inputs(i)
        == a.memo_inputs(i) by {
        assert(b.memo_inputs(i) == a.memo_inputs(i));
        assert(b.is_memo(i));
        assert(c.memo_inputs(i) == b.memo_inputs(i));
    }
    assert forall|i: int|
        0 <= i < a.num_cells() && a.is_memo(i) implies #[trigger] c.memo_op(i) == a.memo_op(i) by {
        assert(b.memo_op(i) == a.memo_op(i));
        assert(b.is_memo(i));
        assert(c.memo_op(i) == b.memo_op(i));
    }
    assert forall|i: int| 0 <= i < a.num_cells() implies #[trigger] c.effect_of(i) == a.effect_of(
        i,
    ) by {
        assert(b.effect_of(i) == a.effect_of(i));
        assert(c.effect_of(i) == b.effect_of(i));
    }
}

/// Law: in a well-formed context, every memo's cached value is a value the
/// calculation function can return for the memo's tag and the current values
/// of its declared inputs. Applied memo by memo along the graph, a read after
/// any sequence of writes therefore reflects the composition of the memo
/// computations applied to the current signal values.
pub proof fn lemma_memo_value_current<T: PartialEq + Clone, F: Fn(u64, Vec<T>) -> T>(
    ctx: ReactiveContext<T, F>,
    m: int,
)
    requires
        ctx.wf(),
        0 <= m < ctx.num_cells(),
        ctx.is_memo(m),
    ensures
        ctx.memo_ok(m),
{
    assert(!Seq::<usize>::empty().contains(m as usize));
}

/// Law: subscriber lists have set semantics — no memo appears twice in the
/// subscriber list of any cell.
pub proof fn lemma_subscribers_distinct<T: PartialEq + Clone, F: Fn(u64, Vec<T>) -> T>(
    ctx: ReactiveContext<T, F>,
    c: int,
)
    requires
        ctx.wf(),
        0 <= c < ctx.num_cells(),
    ensures
        ctx.subscribers_of(c).no_duplicates(),
{
    assert(ctx.cell_sound(c));
}

/// Law: when the calculation function's contract determines a single result
/// for memo `m`'s tag and current input values, the memo caches exactly that
/// result. This is the form of [`lemma_memo_value_current`] used to chain
/// concrete graphs: applied memo by memo, a read reflects the composition of
/// the memo computations over the current signal values.
pub proof fn lemma_memo_value_determined<T: PartialEq + Clone, F: Fn(u64, Vec<T>) -> T>(
    ctx: ReactiveContext<T, F>,
    m: int,
    expected: T,
)
    requires
        ctx.wf(),
        0 <= m < ctx.num_cells(),
        ctx.is_memo(m),
        forall|vals: Vec<T>, r: T|
            vals@ == ctx.input_values(m) && #[trigger] call_ensures(
                ctx.calc_fn(),
                (ctx.memo_op(m), vals),
                r,
            ) ==> r == expected,
    ensures
        ctx.value_of(m) == expected,
{
    lemma_memo_value_current(ctx, m);
    let vals = choose|vals: Vec<T>|
        {
            &&& vals@ == ctx.input_values(m)
            &&& #[trigger] call_ensures(ctx.calc_fn(), (ctx.memo_op(m), vals), ctx.value_of(m))
        };
    assert(ctx.value_of(m) == expected);
}

/// Law: subscriber lists carry no stale entries and miss no reader. In a
/// well-formed context, cell `c` lists memo `s` as a subscriber exactly when
/// `s` declares `c` as an input.
pub proof fn lemma_subscribers_exact<T: PartialEq + Clone, F: Fn(u64, Vec<T>) -> T>(
    ctx: ReactiveContext<T, F>,
    c: int,
    s: int,
)
    requires
        ctx.wf(),
        0 <= c < ctx.num_cells(),
        0 <= s < ctx.num_cells(),
    ensures
        ctx.subscribers_of(c).contains(s as usize) <==> (ctx.is_memo(s) && ctx.memo_inputs(
            s,
        ).contains(c as usize)),
{
    lemma_num_cells_bounded(ctx);
    if ctx.subscribers_of(c).contains(s as usize) {
        assert(ctx.cell_sound(c));
        let u = choose|u: int|
            0 <= u < ctx.subscribers_of(c).len() && ctx.subscribers_of(c)[u] == s as usize;
        assert((ctx.subscribers_of(c)[u] as int) < ctx.num_cells() && ctx.is_memo(
            ctx.subscribers_of(c)[u] as int,
        ) && ctx.memo_inputs(ctx.subscribers_of(c)[u] as int).contains(c as usize));
        assert((s as usize) as int == s);
    }
    if ctx.is_memo(s) && ctx.memo_inputs(s).contains(c as usize) {
        assert(!Seq::<usize>::empty().contains(s as usize));
        assert(ctx.memo_ok(s) && ctx.fully_subscribed(s));
        let w = choose|w: int|
            0 <= w < ctx.memo_inputs(s).len() && ctx.memo_inputs(s)[w] == c as usize;
        assert(ctx.subscribers_of(ctx.memo_inputs(s)[w] as int).contains(s as usize));
        assert((c as usize) as int == c);
        assert(((s as int) as usize) == s as usize);
        assert(ctx.subscribers_of(c).contains((s as int) as usize));
    }
}

} // verus!
