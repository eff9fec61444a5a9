use vstd::prelude::*;

use crate::observable::Observable;

verus! {

use crate::effect::queue_extends;
use crate::effect::queued;
use crate::ReactiveContext;

/// A writable reactive cell handle. Values are read and written through the
/// [`crate::ReactiveContext`]; the handle itself is only a cell index.
#[derive(Clone, Copy, Debug)]
pub struct Signal {
    pub(crate) reactor_entity: usize,
}

impl Signal {
    pub(crate) fn from_entity(id: usize) -> (s: Signal)
        ensures
            s.spec_entity() == id as int,
    {
        Signal { reactor_entity: id }
    }

    /// Read the signal's current value through the context.
    pub fn read<'r, T: PartialEq + Clone, F: Fn(u64, Vec<T>) -> T>(
        self,
        rctx: &'r ReactiveContext<T, F>,
    ) -> (r: &'r T)
        requires
            0 <= self.spec_entity() < rctx.num_cells(),
        ensures
            *r == rctx.value_of(self.spec_entity()),
    {
        rctx.read(self)
    }

    /// See [`ReactiveContext::send_signal`].
    pub fn send<T: PartialEq + Clone, F: Fn(u64, Vec<T>) -> T>(
        self,
        rctx: &mut ReactiveContext<T, F>,
        value: T,
    )
        requires
            old(rctx).wf(),
            0 <= self.spec_entity() < old(rctx).num_cells(),
            !old(rctx).is_memo(self.spec_entity()),
        ensures
            final(rctx).wf(),
            ReactiveContext::same_layout(*old(rctx), *final(rctx)),
            final(rctx).value_of(self.spec_entity()) == value,
            forall|i: int|
                0 <= i < old(rctx).num_cells() && !old(rctx).is_memo(i) && i != self.spec_entity()
                    ==> #[trigger] final(rctx).value_of(i) == old(rctx).value_of(i),
            old(rctx).value_of(self.spec_entity()) == value ==> *final(rctx) == *old(rctx),
            queue_extends(old(rctx).pending_effects(), final(rctx).pending_effects()),
            old(rctx).value_of(self.spec_entity()) != value ==> (match old(rctx).effect_of(
                self.spec_entity(),
            ) {
                Some(tag) => final(rctx).pending_effects().len()
                    > old(rctx).pending_effects().len()
                    && final(rctx).pending_effects()[old(rctx).pending_effects().len() as int].spec_tag()
                    == tag
                    && final(rctx).pending_effects()[old(rctx).pending_effects().len() as int].spec_value()
                    == value,
                None => true,
            }),
            (old(rctx).value_of(self.spec_entity()) != value && old(rctx).subscribers_of(
                self.spec_entity(),
            ).len() == 0) ==> {
                &&& final(rctx).num_recomputes() == old(rctx).num_recomputes()
                &&& (forall|i: int|
                    0 <= i < old(rctx).num_cells() && i != self.spec_entity()
                        ==> #[trigger] final(rctx).value_of(i) == old(rctx).value_of(i)
                        && final(rctx).subscribers_of(i) == old(rctx).subscribers_of(i))
                &&& (match old(rctx).effect_of(self.spec_entity()) {
                    Some(tag) => queued(
                        old(rctx).pending_effects(),
                        final(rctx).pending_effects(),
                        tag,
                        value,
                    ),
                    None => final(rctx).pending_effects() == old(rctx).pending_effects(),
                })
            },
    {
        rctx.send_signal(self, value)
    }
}

impl Observable for Signal {
    closed spec fn spec_entity(&self) -> int {
        self.reactor_entity as int
    }

    fn reactive_entity(&self) -> (r: usize)
        ensures
            r as int == self.spec_entity(),
    {
        self.reactor_entity
    }
}

} // verus!
