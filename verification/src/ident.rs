//! The identifier source: one counter that hands out the ids of nodes,
//! targets and observers.

use vstd::prelude::*;

verus! {

/// A monotonic 32-bit counter. Each id is handed out once.
pub struct IdSource {
    next: u32,
}

impl IdSource {
    /// The id that the next call of `new_id` returns.
    pub closed spec fn next_id(&self) -> u32 {
        self.next
    }

    /// How many ids can still be handed out.
    pub open spec fn spec_remaining(&self) -> int {
        u32::MAX - self.next_id()
    }

    /// A source that starts at zero.
    pub fn new() -> (ids: IdSource)
        ensures
            ids.next_id() == 0,
    {
        IdSource { next: 0 }
    }

    /// Returns the current id and moves on to the next one.
    ///
    /// The counter never wraps: a caller that has used up the id space must
    /// not ask for more.
    pub fn new_id(&mut self) -> (id: u32)
        requires
            old(self).next_id() < u32::MAX,
        ensures
            id == old(self).next_id(),
            final(self).next_id() == id + 1,
    {
        let id: u32 = self.next;
        self.next = id + 1;
        id
    }

    /// The id that the next call of `new_id` returns.
    pub fn peek(&self) -> (id: u32)
        ensures
            id == self.next_id(),
    {
        self.next
    }

    /// The number of ids that are left.
    pub fn remaining(&self) -> (left: u32)
        ensures
            left == self.spec_remaining(),
    {
        u32::MAX - self.next
    }
}

} // verus!
