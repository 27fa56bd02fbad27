//! The coalescer: it folds what arrives within one transaction into one
//! firing downstream.

use vstd::prelude::*;
use crate::frp::FrpContext;
use crate::handler::TransactionHandler;
use crate::model::{fold_is_function, fold_is_total};
use crate::stream::StreamWithSend;

verus! {

/// A handle on a coalescer of a reactive world.
#[derive(Clone, Copy, PartialEq, Eq, Debug, Structural)]
pub struct CoalesceHandler {
    /// Index of the coalescer in its world.
    pub index: usize,
}

impl CoalesceHandler {
    /// A coalescer that folds by `f` and forwards the fold to `out`.
    pub fn new<A: Copy, F: Fn(&A, &A) -> A>(
        ctx: &mut FrpContext<A, F>,
        f: F,
        out: &StreamWithSend,
    ) -> (handler: CoalesceHandler)
        requires
            old(ctx).wf(),
            out.index < old(ctx)@.streams.len(),
            fold_is_total(f),
            fold_is_function(f),
        ensures
            handler.index == old(ctx)@.coalescers.len(),
            final(ctx)@ == old(ctx)@.with_coalescer(Some(f), out.index),
            final(ctx).wf(),
    {
        CoalesceHandler { index: ctx.new_coalescer(Some(f), out.index) }
    }

    /// A coalescer that lets the newer value win and forwards it to `out`.
    pub fn keep_last<A: Copy, F: Fn(&A, &A) -> A>(
        ctx: &mut FrpContext<A, F>,
        out: &StreamWithSend,
    ) -> (handler: CoalesceHandler)
        requires
            old(ctx).wf(),
            out.index < old(ctx)@.streams.len(),
        ensures
            handler.index == old(ctx)@.coalescers.len(),
            final(ctx)@ == old(ctx)@.with_coalescer(None, out.index),
            final(ctx).wf(),
    {
        CoalesceHandler { index: ctx.new_coalescer(None, out.index) }
    }

    /// The coalescer as a transaction handler: invoking it with a value is
    /// `run` with that value.
    pub fn to_transaction_handler(&self) -> (handler: TransactionHandler)
        ensures
            handler == TransactionHandler::Coalesce(self.index),
    {
        TransactionHandler::Coalesce(self.index)
    }

    /// Takes in the value `a`, inside a transaction.
    ///
    /// If the accumulator was empty, it now holds `a`, and one flush is
    /// queued at the rank of the downstream node. Otherwise it holds the
    /// fold of what it held and `a`, and nothing is queued. When the flush
    /// runs, the accumulator is fired downstream and emptied. A coalescer
    /// that the world does not hold drops the value.
    pub fn run<A: Copy, F: Fn(&A, &A) -> A>(&self, ctx: &mut FrpContext<A, F>, a: A)
        requires
            old(ctx).wf(),
            old(ctx)@.depth > 0,
        ensures
            final(ctx)@ == old(ctx)@.coalesced(self.index, a),
            self.index >= old(ctx)@.coalescers.len() ==> final(ctx)@ == old(ctx)@,
            final(ctx).wf(),
    {
        ctx.coalesce(self.index, a);
    }
}

} // verus!
