//! Nodes with named links, the slot store that owns them, and the queues
//! built from them.
pub mod arena;
pub mod block;
pub mod vertex;
pub mod circular_queue;
pub mod fifo;
