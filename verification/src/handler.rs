//! What the engine can be asked to do, written as plain data.
//!
//! A handler names its consumer by index, so an edge never keeps a consumer
//! alive and a handler never owns anything.

use vstd::prelude::*;

verus! {

/// What a listener edge does with a value that its producer fires.
#[derive(Clone, Copy, PartialEq, Eq, Debug, Structural)]
pub enum TransactionHandler {
    /// Hand the value to the observer with this id.
    Notify(u32),
    /// Fold the value into the accumulator of this coalescer. A sink
    /// invokes this handler; no edge carries it.
    Coalesce(usize),
    /// Make the value the pending value of this cell.
    Update(usize),
    /// Fire the value on this stream.
    Forward(usize),
}

/// A unit of work on the priority queue of a transaction.
#[derive(Clone, Copy, PartialEq, Eq, Debug, Structural)]
pub enum Action {
    /// Forward the accumulator of this coalescer downstream and empty it.
    Flush(usize),
}

/// Bookkeeping that runs once the priority queue has drained.
#[derive(Clone, Copy, PartialEq, Eq, Debug, Structural)]
pub enum LastAction {
    /// Forget what this stream fired during the transaction.
    ClearFirings(usize),
    /// Make the pending value of this cell its current value.
    Commit(usize),
}

} // verus!
