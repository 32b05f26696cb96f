//! A transactional functional reactive programming engine.
//!
//! Cells (values that change over time) and streams (discrete events) form a
//! dependency graph of nodes. Inputs are staged inside a transaction; when
//! the outermost transaction ends, every affected node is recomputed exactly
//! once, in topological order, and listener deliveries are queued.
pub mod func;
pub mod topo;
pub mod node;
pub mod sched;
pub mod listen;
pub mod laws;
pub mod frp;

pub use frp::{Action, Cell, CellSink, CellTrait, FrpContext, FrpError, Stream, StreamSink, StreamTrait};
pub use func::{Fn1, Fn2, Pred};
pub use listen::{Delivery, Listener};
