//! One participant of a Raft cluster whose replicated state machine is a FIFO
//! queue of strings: leader election, log replication, commitment through
//! majorities, membership kept in the log, and the queue fed by committed
//! entries. The node is a state machine driven by timer ticks and messages;
//! sending messages and keeping time are the caller's part.

pub mod address;
pub mod hello;
pub mod laws;
pub mod log;
pub mod message_queue;
pub mod node;
