//! Fortress Protocol: the decisions of a small pBFT network, as verified code.
//!
//! A leader proposes transactions to its peers, counts their votes and commits;
//! a bootnode introduces new peers to the network. This crate holds what those
//! three kinds of node compute and decide. Sockets, timers and tasks belong to
//! the program around it.
pub mod bootnode;
pub mod buffer;
pub mod framing;
pub mod leader;
pub mod ledger;
pub mod packet;
pub mod peer;
pub mod queue;
pub mod quorum;
pub mod request;
pub mod round;
pub mod transaction;
pub mod validation;
pub mod wire;
