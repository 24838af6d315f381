//! capability-based IPC over `AF_UNIX` `SOCK_SEQPACKET`
//!
//! A [`Ref`] is a capability: holding one *is* the authority to send to the node behind it.
//! Capabilities move between processes as descriptors, so passing one is the same operation as
//! passing a file.
//!
//! This crate holds everything about that which can be decided without touching the kernel or a
//! runtime, and proves it. What is left to a program around it is to make the system calls, to run
//! the tasks, and to hand back what came of them.

pub mod capability;
pub mod death;
pub mod directory;
pub mod error;
pub mod flow;
pub mod identity;
pub mod local;
pub mod message;
pub mod node;
pub mod outbox;
pub mod tickets;
pub mod wire;

pub use capability::{Ref, Refs, WeakRef};
pub use error::{SendError, TrySendError};
pub use message::Message;
pub use node::{BoundNode, Node};
pub use wire::{EXPECTED_ANCILLARY_BUFFER_SIZE, MAX_FDS, MAX_MESSAGE_SIZE};
