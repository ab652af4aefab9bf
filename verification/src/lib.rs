//! Neural Consensus Protocol core algorithms: majority voting with Byzantine fault
//! tolerance, the bookkeeping and candidate rules of UCB1 attack scheduling, stance
//! agreement counts, and consensus store statistics, each with its contract proved by
//! Verus.

pub mod consensus;
pub mod entropy;
pub mod types;
pub mod ucb;
pub mod voting;

pub use consensus::{ClaimStatus, StoreStats};
pub use types::{Attack, Chain, ChainStatus, Step, StepAddress, StepStatus, Vote, VoteResult};
pub use ucb::{AttackScheduler, StepStats};
pub use voting::{majority_decision, max_byzantine_tolerance};
