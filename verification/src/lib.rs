//! Directed port grants, enrollment tokens and pinned peers for a
//! peer-to-peer port forwarder.

pub mod key;
pub mod grants;
pub mod seqs;
pub mod clock;
pub mod hex;
pub mod enroll;
pub mod protocol;
pub mod client;
pub mod bindings;
pub mod daemon;
