//! The work that one transaction has collected: a priority queue ordered
//! by rank, and two first-in first-out lists.

use vstd::prelude::*;
use crate::handler::{Action, LastAction};

verus! {

/// A prioritized action with the rank it was queued at.
#[derive(Clone, Copy, PartialEq, Eq, Debug, Structural)]
pub struct Entry {
    pub rank: u64,
    pub action: Action,
}

/// The index of the entry of `q` that runs next: of those with the
/// smallest rank, the one that was queued first. Zero for an empty queue.
pub open spec fn first_min(q: Seq<Entry>) -> int
    decreases q.len(),
{
    if q.len() <= 1 {
        0
    } else {
        let i = first_min(q.drop_last());
        if q.last().rank < q[i].rank {
            q.len() - 1
        } else {
            i
        }
    }
}

/// `first_min` is what its name says: no entry has a smaller rank, and
/// every entry queued earlier has a larger one.
pub proof fn lemma_first_min(q: Seq<Entry>)
    requires
        q.len() > 0,
    ensures
        0 <= first_min(q) < q.len(),
        forall|j: int| 0 <= j < q.len() ==> q[first_min(q)].rank <= (#[trigger] q[j]).rank,
        forall|j: int| 0 <= j < first_min(q) ==> q[first_min(q)].rank < (#[trigger] q[j]).rank,
    decreases q.len(),
{
    if q.len() > 1 {
        let p = q.drop_last();
        lemma_first_min(p);
        let i = first_min(p);
        assert forall|j: int| 0 <= j < q.len() implies q[first_min(q)].rank <= (
        #[trigger] q[j]).rank by {
            if j < p.len() {
                assert(p[j] == q[j]);
            }
        }
        assert forall|j: int| 0 <= j < first_min(q) implies q[first_min(q)].rank < (
        #[trigger] q[j]).rank by {
            assert(p[j] == q[j]);
        }
    }
}

/// The mathematical value of a [`Transaction`].
pub struct TransactionView {
    /// The prioritized entries, in the order they were queued.
    pub prioritized: Seq<Entry>,
    /// The actions to run once the priority queue has drained, oldest first.
    pub last: Seq<LastAction>,
    /// The tokens of the actions to run after the transaction, oldest first.
    pub post: Seq<u32>,
}

/// The queues of one transaction.
pub struct Transaction {
    prioritized: Vec<Entry>,
    last: Vec<LastAction>,
    post: Vec<u32>,
}

impl View for Transaction {
    type V = TransactionView;

    closed spec fn view(&self) -> TransactionView {
        TransactionView { prioritized: self.prioritized@, last: self.last@, post: self.post@ }
    }
}

impl Transaction {
    /// A transaction with nothing queued.
    pub fn new() -> (tx: Transaction)
        ensures
            tx@.prioritized == Seq::<Entry>::empty(),
            tx@.last == Seq::<LastAction>::empty(),
            tx@.post == Seq::<u32>::empty(),
    {
        Transaction { prioritized: Vec::new(), last: Vec::new(), post: Vec::new() }
    }

    /// Queues `action` at `rank`.
    pub fn prioritized(&mut self, rank: u64, action: Action)
        ensures
            final(self)@ == (TransactionView {
                prioritized: old(self)@.prioritized.push(Entry { rank, action }),
                ..old(self)@
            }),
    {
        self.prioritized.push(Entry { rank, action });
    }

    /// Queues `action` to run once the priority queue has drained.
    pub fn last(&mut self, action: LastAction)
        ensures
            final(self)@ == (TransactionView { last: old(self)@.last.push(action), ..old(self)@ }),
    {
        self.last.push(action);
    }

    /// Queues the action that `token` stands for to run after the
    /// transaction.
    pub fn post(&mut self, token: u32)
        ensures
            final(self)@ == (TransactionView { post: old(self)@.post.push(token), ..old(self)@ }),
    {
        self.post.push(token);
    }

    /// Whether no prioritized entry is queued.
    pub fn is_drained(&self) -> (drained: bool)
        ensures
            drained == (self@.prioritized.len() == 0),
    {
        self.prioritized.len() == 0
    }

    /// Takes the entry that runs next off the priority queue: of the
    /// entries with the smallest rank, the one queued first. `None` if the
    /// queue is empty.
    pub fn pop_prioritized(&mut self) -> (entry: Option<Entry>)
        ensures
            old(self)@.prioritized.len() == 0 ==> entry is None && final(self)@ == old(self)@,
            old(self)@.prioritized.len() > 0 ==> entry == Some(
                old(self)@.prioritized[first_min(old(self)@.prioritized)],
            ) && final(self)@ == (TransactionView {
                prioritized: old(self)@.prioritized.remove(first_min(old(self)@.prioritized)),
                ..old(self)@
            }),
    {
        let n: usize = self.prioritized.len();
        if n == 0 {
            return None;
        }
        let ghost q = self.prioritized@;
        let mut best: usize = 0;
        let mut k: usize = 1;
        assert(q.take(1).len() == 1);
        while k < n
            invariant
                1 <= k <= n,
                n == q.len(),
                q == self.prioritized@,
                best == first_min(q.take(k as int)),
                best < k,
            decreases n - k,
        {
            proof {
                assert(q.take(k + 1).drop_last() =~= q.take(k as int));
                assert(q.take(k + 1).last() == q[k as int]);
                assert(q.take(k + 1)[best as int] == q[best as int]);
            }
            if self.prioritized[k].rank < self.prioritized[best].rank {
                best = k;
            }
            k = k + 1;
        }
        assert(q.take(n as int) =~= q);
        let entry: Entry = self.prioritized.remove(best);
        Some(entry)
    }

    /// Discards every prioritized entry.
    pub fn discard_prioritized(&mut self)
        ensures
            final(self)@ == (TransactionView { prioritized: Seq::empty(), ..old(self)@ }),
    {
        self.prioritized.clear();
    }

    /// Takes the whole list of last actions, oldest first, and leaves it
    /// empty.
    pub fn take_last(&mut self) -> (actions: Vec<LastAction>)
        ensures
            actions@ == old(self)@.last,
            final(self)@ == (TransactionView { last: Seq::empty(), ..old(self)@ }),
    {
        let mut actions: Vec<LastAction> = Vec::new();
        std::mem::swap(&mut actions, &mut self.last);
        actions
    }

    /// Takes the whole list of post tokens, oldest first, and leaves it
    /// empty.
    pub fn take_post(&mut self) -> (tokens: Vec<u32>)
        ensures
            tokens@ == old(self)@.post,
            final(self)@ == (TransactionView { post: Seq::empty(), ..old(self)@ }),
    {
        let mut tokens: Vec<u32> = Vec::new();
        std::mem::swap(&mut tokens, &mut self.post);
        tokens
    }
}

} // verus!
