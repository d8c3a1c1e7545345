//! A replicated task queue.

pub mod broker;
pub mod broker_laws;
pub mod clock;
pub mod cluster;
pub mod codec;
pub mod config;
pub mod election;
pub mod ids;
pub mod job;
pub mod log;
pub mod log_laws;
pub mod member_laws;
pub mod proposal_laws;
pub mod protocol;
pub mod queue_laws;
pub mod quorum;
pub mod raft;
pub mod raft_laws;
pub mod safety;
pub mod state;
pub mod text;
pub mod transport;
