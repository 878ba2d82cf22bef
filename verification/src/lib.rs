//! Core of a leader-based replicated state-machine runtime: term/vote/log
//! bookkeeping, leader election, log replication, commit advancement and
//! snapshot installation, together with the pluggable state-machine registry
//! the consensus node drives and the membership/heartbeat service built on it.
use vstd::prelude::*;

pub mod codec;
pub mod config;
pub mod hashing;
pub mod heartbeat;
pub mod laws;
pub mod log;
pub mod master;
pub mod quorum;
pub mod raft;
pub mod seqs;

verus! {

} // verus!
