use vstd::prelude::*;

use crate::observable::Observable;

verus! {

/// A handle to an effect annotation: the index of the observed cell.
#[derive(Clone, Copy, Debug)]
pub struct Effect {
    pub(crate) reactor_entity: usize,
}

impl Effect {
    pub(crate) fn from_entity(id: usize) -> (e: Effect)
        ensures
            e.spec_entity() == id as int,
    {
        Effect { reactor_entity: id }
    }

    /// See [`crate::ReactiveContext::new_deferred_effect`].
    pub fn new_deferred<T: PartialEq + Clone, F: Fn(u64, Vec<T>) -> T, O: Observable>(
        rctx: &mut crate::ReactiveContext<T, F>,
        observable: O,
        effect: u64,
    ) -> (e: Effect)
        requires
            old(rctx).wf(),
            0 <= observable.spec_entity() < old(rctx).num_cells(),
        ensures
            final(rctx).wf(),
            e.spec_entity() == observable.spec_entity(),
            final(rctx).effect_of(observable.spec_entity()) == Some(effect),
            final(rctx).num_cells() == old(rctx).num_cells(),
            forall|i: int|
                0 <= i < old(rctx).num_cells() && i != observable.spec_entity()
                    ==> #[trigger] final(rctx).effect_of(i) == old(rctx).effect_of(i),
            forall|i: int|
                0 <= i < old(rctx).num_cells() ==> #[trigger] final(rctx).value_of(i)
                    == old(rctx).value_of(i),
            final(rctx).pending_effects() == old(rctx).pending_effects(),
            final(rctx).num_recomputes() == old(rctx).num_recomputes(),
    {
        rctx.new_deferred_effect(observable, effect)
    }

    /// The effect annotation of the observed cell, if it still carries one.
    pub fn get<T: PartialEq + Clone, F: Fn(u64, Vec<T>) -> T>(
        self,
        rctx: &crate::ReactiveContext<T, F>,
    ) -> (r: Option<u64>)
        requires
            0 <= self.spec_entity() < rctx.num_cells(),
        ensures
            r == rctx.effect_of(self.spec_entity()),
    {
        rctx.effect_system(self)
    }
}

impl Observable for Effect {
    closed spec fn spec_entity(&self) -> int {
        self.reactor_entity as int
    }

    fn reactive_entity(&self) -> (r: usize)
        ensures
            r as int == self.spec_entity(),
    {
        self.reactor_entity
    }
}

/// One queued deferred effect: the tag of the effect annotation of the cell
/// that changed, together with the value the cell changed to, captured at the
/// moment the change happened.
pub struct EffectData<T> {
    pub(crate) tag: u64,
    pub(crate) value: T,
}

impl<T> EffectData<T> {
    /// The effect tag this entry was queued under.
    pub closed spec fn spec_tag(self) -> u64 {
        self.tag
    }

    /// The value the observed cell changed to when this entry was queued.
    pub closed spec fn spec_value(self) -> T {
        self.value
    }

    pub fn value(&self) -> (r: &T)
        ensures
            *r == self.spec_value(),
    {
        &self.value
    }

    pub fn effect_tag(&self) -> (r: u64)
        ensures
            r == self.spec_tag(),
    {
        self.tag
    }
}

/// `q1` is `q0` with zero or more entries appended: the queued effects are
/// never reordered or dropped, only drained as a whole.
pub open spec fn queue_extends<T>(q0: Seq<EffectData<T>>, q1: Seq<EffectData<T>>) -> bool {
    &&& q1.len() >= q0.len()
    &&& forall|i: int| 0 <= i < q0.len() ==> q1[i] == q0[i]
}

/// `q1` extends `q0` by exactly one entry carrying `tag` and `value`.
pub open spec fn queued<T>(q0: Seq<EffectData<T>>, q1: Seq<EffectData<T>>, tag: u64, value: T) -> bool {
    &&& q1.len() == q0.len() + 1
    &&& q1.subrange(0, q0.len() as int) == q0
    &&& q1.last().spec_tag() == tag
    &&& q1.last().spec_value() == value
}

/// The queue of side effects gathered while writes propagate through the
/// graph. Effects are not run inline; they are drained later in one batch,
/// in insertion order.
pub struct RxDeferredEffects<T> {
    pub(crate) stack: Vec<EffectData<T>>,
}

impl<T> RxDeferredEffects<T> {
    pub closed spec fn entries(self) -> Seq<EffectData<T>> {
        self.stack@
    }

    pub(crate) fn empty() -> (r: Self)
        ensures
            r.entries() == Seq::<EffectData<T>>::empty(),
    {
        RxDeferredEffects { stack: Vec::new() }
    }

    /// How many effects are queued.
    pub fn len(&self) -> (r: usize)
        ensures
            r == self.entries().len(),
    {
        self.stack.len()
    }

    /// Move the whole queue out, leaving it empty.
    pub(crate) fn take_all(&mut self) -> (r: Vec<EffectData<T>>)
        ensures
            r@ == old(self).entries(),
            final(self).entries() == Seq::<EffectData<T>>::empty(),
    {
        let mut taken: Vec<EffectData<T>> = Vec::new();
        core::mem::swap(&mut taken, &mut self.stack);
        taken
    }

    /// Queue one deferred effect.
    pub fn push(&mut self, tag: u64, value: T)
        ensures
            queued(old(self).entries(), final(self).entries(), tag, value),
    {
        self.stack.push(EffectData { tag, value });
        proof {
            assert(self.stack@.subrange(0, old(self).stack@.len() as int) =~= old(self).stack@);
        }
    }
}

/// Relates a starting external state `init` to a final state `fin` reached by
/// applying `apply` to each queued entry of `entries` in insertion order.
pub open spec fn flush_steps<T, E, G: Fn(E, u64, T) -> E>(
    apply: G,
    entries: Seq<EffectData<T>>,
    init: E,
    fin: E,
) -> bool
    decreases entries.len(),
{
    if entries.len() == 0 {
        fin == init
    } else {
        exists|mid: E|
            {
                &&& flush_steps(apply, entries.drop_last(), init, mid)
                &&& #[trigger] call_ensures(
                    apply,
                    (mid, entries.last().spec_tag(), entries.last().spec_value()),
                    fin,
                )
            }
    }
}

} // verus!
