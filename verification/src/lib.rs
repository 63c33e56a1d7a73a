//! Consensus core of a replicated append-only log: leader election, log
//! replication, commit tracking and the driver that feeds committed entries
//! to a state machine.

pub mod raft;
pub mod rpc;
pub mod log;
pub mod election;
pub mod progress;
pub mod config;
pub mod error;
pub mod fsm;
pub mod node;
pub mod follower;
pub mod candidate;
pub mod leader;
pub mod invariants;
pub mod cluster;
pub mod safety;
pub mod matching;
pub mod durability;
pub mod application;
pub mod broker;
