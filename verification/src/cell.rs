//! Cells: values that are always defined and change only between
//! transactions.

use vstd::prelude::*;
use crate::frp::FrpContext;
use crate::stream::{Listener, StreamSink};

verus! {

/// A value that varies over time.
pub trait Cell<A: Copy, F: Fn(&A, &A) -> A> {
    /// Index of the cell in its world.
    spec fn index(&self) -> usize;

    /// The current value. An update that is pending in the current
    /// transaction does not show.
    fn current_value(&self, ctx: &FrpContext<A, F>) -> (value: A)
        requires
            self.index() < ctx@.cells.len(),
        ensures
            value == ctx@.cells[self.index() as int].value,
    ;

    /// Attaches an observer. It is owed the current value at once, and
    /// from now on the new value once in each transaction that changes
    /// the cell.
    ///
    /// For a cell that the world does not hold nothing is attached: the
    /// world stays as it is, and the handle that comes back is one whose
    /// `unlisten` changes nothing.
    fn observe(&self, ctx: &mut FrpContext<A, F>) -> (listener: Listener)
        requires
            old(ctx)@.inv(),
            self.index() < old(ctx)@.cells.len() ==> old(ctx)@.next_id < u32::MAX,
        ensures
            listener == if self.index() < old(ctx)@.cells.len() {
                Listener {
                    stream: old(ctx)@.cells[self.index() as int].updates,
                    id: old(ctx)@.next_id,
                }
            } else {
                Listener::spec_none()
            },
            final(ctx)@ == old(ctx)@.observed(self.index()),
            self.index() >= old(ctx)@.cells.len() ==> final(ctx)@ == old(ctx)@,
            final(ctx)@.inv(),
    ;
}

/// A cell that can be written from outside.
pub trait CellSink<A: Copy, F: Fn(&A, &A) -> A>: Cell<A, F> {
    /// Makes `value` the next value of the cell, in the transaction that
    /// is open or in one of its own.
    ///
    /// Until the outermost transaction closes the cell keeps its value.
    /// Of several values given within one transaction the last one wins.
    /// A value for a cell that the world does not hold changes nothing.
    fn change_value(&self, ctx: &mut FrpContext<A, F>, value: A)
        requires
            old(ctx)@.inv(),
            old(ctx)@.depth < u32::MAX,
        ensures
            final(ctx)@ == old(ctx)@.changed(self.index(), value),
            self.index() >= old(ctx)@.cells.len() ==> final(ctx)@ == old(ctx)@,
            final(ctx)@.inv(),
    ;
}

/// A handle on a cell of a reactive world.
#[derive(Clone, Copy, PartialEq, Eq, Debug, Structural)]
pub struct CellRef {
    pub id: usize,
}

impl CellRef {
    /// The handle on the cell with the index `id`.
    pub fn of(id: usize) -> (cell: CellRef)
        ensures
            cell.id == id,
    {
        CellRef { id }
    }

    /// A new cell that holds `initial`, with a sink of its own.
    pub fn new<A: Copy, F: Fn(&A, &A) -> A>(ctx: &mut FrpContext<A, F>, initial: A) -> (cell:
        CellRef)
        requires
            old(ctx).wf(),
            old(ctx)@.next_id < u32::MAX - 1,
        ensures
            cell.id == old(ctx)@.cells.len(),
            final(ctx)@ == old(ctx)@.with_stream().with_coalescer(
                None,
                old(ctx)@.streams.len() as usize,
            ).with_cell(
                initial,
                old(ctx)@.streams.len() as usize,
                old(ctx)@.coalescers.len() as usize,
            ),
            final(ctx).wf(),
    {
        let sink = StreamSink::new(ctx);
        CellRef { id: ctx.new_cell(initial, sink.stream.index, sink.coalescer.index) }
    }
}

/// The index of the cell that a `CellRef` names is its `id`, whatever the
/// world.
pub proof fn lemma_cell_ref_index<A: Copy, F: Fn(&A, &A) -> A>(cell: CellRef)
    ensures
        Cell::<A, F>::index(&cell) == cell.id,
{
}

impl<A: Copy, F: Fn(&A, &A) -> A> Cell<A, F> for CellRef {
    open spec fn index(&self) -> usize {
        self.id
    }

    fn current_value(&self, ctx: &FrpContext<A, F>) -> (value: A) {
        ctx.sample(self.id)
    }

    fn observe(&self, ctx: &mut FrpContext<A, F>) -> (listener: Listener) {
        if self.id >= ctx.cell_count() {
            return Listener::none();
        }
        let stream: usize = ctx.updates_of(self.id);
        match ctx.observe(self.id) {
            Some(id) => Listener { stream, id },
            None => Listener::none(),
        }
    }
}

impl<A: Copy, F: Fn(&A, &A) -> A> CellSink<A, F> for CellRef {
    fn change_value(&self, ctx: &mut FrpContext<A, F>, value: A) {
        if self.id >= ctx.cell_count() {
            return ;
        }
        let feed: usize = ctx.feed_of(self.id);
        proof {
            assert(ctx@.cell_ok(self.id as int));
        }
        ctx.begin();
        ctx.coalesce(feed, value);
        ctx.end();
    }
}

} // verus!
