use rusty_frp::handler::TransactionHandler;
use rusty_frp::ident::IdSource;
use rusty_frp::node::{Node, NodeGraph, Target};
use std::collections::HashSet;

fn ranks(g: &NodeGraph) -> Vec<u64> {
    g.nodes.iter().map(|n| n.rank).collect()
}

#[test]
fn new_node_has_fresh_id_and_no_listeners() {
    let mut ids = IdSource::new();
    let a = Node::new(&mut ids, 4);
    let b = Node::new(&mut ids, 0);
    assert_eq!((a.id, a.rank, a.listeners.len()), (0, 4, 0));
    assert_eq!((b.id, b.rank, b.listeners.len()), (1, 0, 0));
}

#[test]
fn new_target_has_fresh_id() {
    let mut ids = IdSource::new();
    ids.new_id();
    let t = Target::new(&mut ids, 3, TransactionHandler::Notify(9));
    assert_eq!(t.id, 1);
    assert_eq!(t.node, 3);
    assert_eq!(t.action, TransactionHandler::Notify(9));
}

#[test]
fn rank_respects_dependencies() {
    let mut ids = IdSource::new();
    let mut g = NodeGraph::new();
    let a = g.add(&mut ids, 0);
    let b = g.add(&mut ids, 0);
    let c = g.add(&mut ids, 0);
    let (_, changed_ab) = g.link_to(&mut ids, a, b, TransactionHandler::Notify(0));
    let (_, changed_bc) = g.link_to(&mut ids, b, c, TransactionHandler::Notify(0));
    assert!(changed_ab);
    assert!(changed_bc);
    assert!(g.rank(a) < g.rank(b));
    assert!(g.rank(b) < g.rank(c));
    assert_eq!(ranks(&g), vec![0, 1, 2]);
    let (_, changed_ac) = g.link_to(&mut ids, a, c, TransactionHandler::Notify(0));
    assert!(!changed_ac);
    assert_eq!(ranks(&g), vec![0, 1, 2]);
    for n in g.nodes.iter() {
        for t in n.listeners.iter() {
            assert!(g.nodes[t.node].rank > n.rank);
        }
    }
}

#[test]
fn link_raises_everything_downstream() {
    let mut ids = IdSource::new();
    let mut g = NodeGraph::new();
    let a = g.add(&mut ids, 0);
    let b = g.add(&mut ids, 0);
    let c = g.add(&mut ids, 0);
    let p = g.add(&mut ids, 5);
    g.link_to(&mut ids, a, b, TransactionHandler::Notify(0));
    g.link_to(&mut ids, b, c, TransactionHandler::Notify(0));
    let (t, changed) = g.link_to(&mut ids, p, a, TransactionHandler::Notify(7));
    assert!(changed);
    assert_eq!(t.node, a);
    assert_eq!(t.action, TransactionHandler::Notify(7));
    assert_eq!(ranks(&g), vec![6, 7, 8, 5]);
    assert_eq!(g.nodes[p].listeners.len(), 1);
    assert_eq!(g.nodes[p].listeners[0].id, t.id);
}

#[test]
fn link_ids_are_fresh() {
    let mut ids = IdSource::new();
    let mut g = NodeGraph::new();
    let a = g.add(&mut ids, 0);
    let b = g.add(&mut ids, 0);
    let (t1, _) = g.link_to(&mut ids, a, b, TransactionHandler::Notify(0));
    let (t2, _) = g.link_to(&mut ids, a, b, TransactionHandler::Notify(0));
    assert_eq!(t1.id, 2);
    assert_eq!(t2.id, 3);
    assert_eq!(g.nodes[a].listeners.len(), 2);
}

#[test]
fn ensure_bigger_than_leaves_higher_rank_alone() {
    let mut ids = IdSource::new();
    let mut g = NodeGraph::new();
    let a = g.add(&mut ids, 9);
    let mut visited = HashSet::new();
    assert!(!g.ensure_bigger_than(a, 8, &mut visited));
    assert_eq!(g.rank(a), 9);
    assert!(visited.is_empty());
}

#[test]
fn ensure_bigger_than_raises_to_limit_plus_one() {
    let mut ids = IdSource::new();
    let mut g = NodeGraph::new();
    let a = g.add(&mut ids, 9);
    let mut visited = HashSet::new();
    assert!(g.ensure_bigger_than(a, 9, &mut visited));
    assert_eq!(g.rank(a), 10);
    assert!(visited.contains(&g.nodes[a].id));
}

#[test]
fn ensure_bigger_than_skips_visited() {
    let mut ids = IdSource::new();
    let mut g = NodeGraph::new();
    let a = g.add(&mut ids, 0);
    let mut visited = HashSet::new();
    visited.insert(g.nodes[a].id);
    assert!(!g.ensure_bigger_than(a, 3, &mut visited));
    assert_eq!(g.rank(a), 0);
}

#[test]
fn sweep_meets_a_raised_node_again_and_leaves_it() {
    // x -> c, x -> b, b -> c: the sweep from x raises c first, then b, and
    // finds c visited when it comes from b.
    let mut ids = IdSource::new();
    let mut g = NodeGraph::new();
    let x = g.add(&mut ids, 0);
    let b = g.add(&mut ids, 0);
    let c = g.add(&mut ids, 0);
    g.link_to(&mut ids, x, c, TransactionHandler::Notify(0));
    g.link_to(&mut ids, x, b, TransactionHandler::Notify(0));
    g.link_to(&mut ids, b, c, TransactionHandler::Notify(0));
    assert_eq!(ranks(&g), vec![0, 1, 2]);
    let mut visited = HashSet::new();
    assert!(g.ensure_bigger_than(x, 5, &mut visited));
    assert_eq!(ranks(&g), vec![6, 7, 7]);
}

#[test]
fn unlink_removes_by_id_and_keeps_ranks() {
    let mut ids = IdSource::new();
    let mut g = NodeGraph::new();
    let a = g.add(&mut ids, 0);
    let b = g.add(&mut ids, 0);
    let (t1, _) = g.link_to(&mut ids, a, b, TransactionHandler::Notify(1));
    let (t2, _) = g.link_to(&mut ids, a, b, TransactionHandler::Notify(2));
    g.unlink_to(a, t1);
    assert_eq!(g.nodes[a].listeners.len(), 1);
    assert_eq!(g.nodes[a].listeners[0].id, t2.id);
    assert_eq!(g.rank(b), 1);
    g.unlink_to(a, t1);
    assert_eq!(g.nodes[a].listeners.len(), 1);
    g.unlink_to(a, t2);
    assert_eq!(g.nodes[a].listeners.len(), 0);
    assert_eq!(g.len(), 2);
}

#[test]
fn nodes_are_ordered_by_rank() {
    let mut ids = IdSource::new();
    let low = Node::new(&mut ids, 1);
    let high = Node::new(&mut ids, 4);
    let also_low = Node::new(&mut ids, 1);
    assert!(low < high);
    assert!(high > low);
    assert!(low == also_low);
    assert!(low != high);
    assert!(low <= also_low);
    assert_eq!(low.partial_cmp(&high), Some(std::cmp::Ordering::Less));
    assert_eq!(high.partial_cmp(&low), Some(std::cmp::Ordering::Greater));
    assert_eq!(low.partial_cmp(&also_low), Some(std::cmp::Ordering::Equal));
}
