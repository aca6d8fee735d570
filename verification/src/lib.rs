//! A dual-mode first-in-first-out queue.
//!
//! The queue is a Michael-Scott style singly-linked list with a sentinel
//! node at the front. Non-sentinel nodes either all carry data, or all
//! carry a waiting consumer's request for data; a producer either links a
//! data node at the tail or hands its value directly to the first waiting
//! consumer. Blocking itself (thread parking) lives outside the library:
//! `pop_or_wait`, `waiter_ready` and `waiter_take` expose the state
//! transitions a blocking caller drives.

pub mod laws;
pub mod queue;

pub use queue::MsQueue;
pub use queue::PopAttempt;
