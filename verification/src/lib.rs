//! The core of a functional reactive programming runtime.
//!
//! Application code describes values that vary over time (cells) and
//! discrete events (streams) as a graph of nodes, and changes flow through
//! the graph inside transactions, in an order that the ranks of the nodes
//! fix.
//!
//! - [`ident`]: the source of ids.
//! - [`node`]: the node graph, its edges and ranks; [`node_order`] orders
//!   nodes by rank; [`rank_order`] proves that a link leaves the rank
//!   growing along every edge.
//! - [`transaction`]: the queues of one transaction.
//! - [`handler`]: the work of the engine, written as data.
//! - [`model`]: the reactive world as a mathematical value, with every
//!   operation as a function on it; [`construction`] and [`propagation`]
//!   prove that the operations keep the world in order.
//! - [`frp`]: the world itself and its transaction engine.
//! - [`stream`], [`cell`], [`coalesce_handler`]: the handles that
//!   applications hold.
//! - [`laws`], [`history`]: what holds of the engine as a whole.
//!
//! The engine keeps no closures but the folding functions of coalescers.
//! What observers are owed, and which post actions are due, it hands out as
//! data once the outermost transaction has closed.

pub mod cell;
pub mod coalesce_handler;
pub mod construction;
pub mod frp;
pub mod handler;
pub mod history;
pub mod ident;
pub mod laws;
pub mod model;
pub mod node;
pub mod node_order;
pub mod propagation;
pub mod rank_order;
pub mod stream;
pub mod transaction;
