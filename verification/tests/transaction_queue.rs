use rusty_frp::handler::{Action, LastAction};
use rusty_frp::transaction::{Entry, Transaction};

#[test]
fn pops_smallest_rank_first() {
    let mut tx = Transaction::new();
    tx.prioritized(3, Action::Flush(0));
    tx.prioritized(1, Action::Flush(1));
    tx.prioritized(2, Action::Flush(2));
    assert_eq!(tx.pop_prioritized(), Some(Entry { rank: 1, action: Action::Flush(1) }));
    assert_eq!(tx.pop_prioritized(), Some(Entry { rank: 2, action: Action::Flush(2) }));
    assert_eq!(tx.pop_prioritized(), Some(Entry { rank: 3, action: Action::Flush(0) }));
    assert_eq!(tx.pop_prioritized(), None);
    assert!(tx.is_drained());
}

#[test]
fn equal_ranks_pop_in_insertion_order() {
    let mut tx = Transaction::new();
    tx.prioritized(5, Action::Flush(10));
    tx.prioritized(2, Action::Flush(20));
    tx.prioritized(5, Action::Flush(30));
    tx.prioritized(2, Action::Flush(40));
    tx.prioritized(2, Action::Flush(50));
    let order: Vec<usize> = std::iter::from_fn(|| tx.pop_prioritized())
        .map(|e| match e.action {
            Action::Flush(c) => c,
        })
        .collect();
    assert_eq!(order, vec![20, 40, 50, 10, 30]);
}

#[test]
fn pop_of_empty_queue_is_none() {
    let mut tx = Transaction::new();
    assert!(tx.is_drained());
    assert_eq!(tx.pop_prioritized(), None);
}

#[test]
fn last_and_post_are_first_in_first_out() {
    let mut tx = Transaction::new();
    tx.last(LastAction::Commit(2));
    tx.last(LastAction::ClearFirings(1));
    tx.post(8);
    tx.post(3);
    assert_eq!(tx.take_last(), vec![LastAction::Commit(2), LastAction::ClearFirings(1)]);
    assert_eq!(tx.take_last(), vec![]);
    assert_eq!(tx.take_post(), vec![8, 3]);
    assert_eq!(tx.take_post(), Vec::<u32>::new());
}

#[test]
fn discard_empties_the_priority_queue_only() {
    let mut tx = Transaction::new();
    tx.prioritized(1, Action::Flush(0));
    tx.prioritized(2, Action::Flush(1));
    tx.last(LastAction::Commit(0));
    tx.post(6);
    tx.discard_prioritized();
    assert!(tx.is_drained());
    assert_eq!(tx.pop_prioritized(), None);
    assert_eq!(tx.take_last(), vec![LastAction::Commit(0)]);
    assert_eq!(tx.take_post(), vec![6]);
}
