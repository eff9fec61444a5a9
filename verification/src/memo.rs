use vstd::prelude::*;

use crate::observable::Observable;

verus! {

use crate::sat_inc;
use crate::ReactiveContext;

/// How a memo cell derives its value: the indices of the cells it reads and
/// the tag handed to the context's calculation function together with the
/// values of those cells.
pub(crate) struct MemoPlan {
    pub(crate) inputs: Vec<usize>,
    pub(crate) op: u64,
}

/// A reactive cell whose value is recalculated automatically and memoized.
/// The value can only be read through the [`crate::ReactiveContext`]; there
/// is no way to write to a memo directly.
#[derive(Clone, Copy, Debug)]
pub struct Memo {
    pub(crate) reactor_entity: usize,
}

impl Memo {
    pub(crate) fn from_entity(id: usize) -> (m: Memo)
        ensures
            m.spec_entity() == id as int,
    {
        Memo { reactor_entity: id }
    }

    /// See [`ReactiveContext::new_memo`].
    pub fn new<T: PartialEq + Clone, F: Fn(u64, Vec<T>) -> T>(
        rctx: &mut ReactiveContext<T, F>,
        inputs: Vec<usize>,
        op: u64,
    ) -> (m: Memo)
        requires
            old(rctx).wf(),
            forall|k: int|
                0 <= k < inputs@.len() ==> (#[trigger] inputs@[k] as int) < old(rctx).num_cells(),
        ensures
            final(rctx).wf(),
            m.spec_entity() == old(rctx).num_cells(),
            final(rctx).num_cells() == old(rctx).num_cells() + 1,
            final(rctx).is_memo(m.spec_entity()),
            final(rctx).memo_inputs(m.spec_entity()) == inputs@,
            final(rctx).memo_op(m.spec_entity()) == op,
            final(rctx).effect_of(m.spec_entity()) is None,
            final(rctx).memo_ok(m.spec_entity()),
            forall|i: int|
                0 <= i < old(rctx).num_cells() ==> #[trigger] final(rctx).value_of(i)
                    == old(rctx).value_of(i),
            forall|i: int|
                0 <= i < old(rctx).num_cells() ==> #[trigger] final(rctx).is_memo(i)
                    == old(rctx).is_memo(i),
            final(rctx).pending_effects() == old(rctx).pending_effects(),
            final(rctx).num_recomputes() == sat_inc(old(rctx).num_recomputes()),
            final(rctx).calc_fn() == old(rctx).calc_fn(),
    {
        rctx.new_memo(inputs, op)
    }

    /// Read the memo's cached value through the context.
    pub fn read<'r, T: PartialEq + Clone, F: Fn(u64, Vec<T>) -> T>(
        self,
        rctx: &'r ReactiveContext<T, F>,
    ) -> (r: &'r T)
        requires
            0 <= self.spec_entity() < rctx.num_cells(),
        ensures
            *r == rctx.value_of(self.spec_entity()),
    {
        rctx.read(self)
    }
}

impl Observable for Memo {
    closed spec fn spec_entity(&self) -> int {
        self.reactor_entity as int
    }

    fn reactive_entity(&self) -> (r: usize)
        ensures
            r as int == self.spec_entity(),
    {
        self.reactor_entity
    }
}

} // verus!
