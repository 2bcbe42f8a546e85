//! Weighted resolution of relayed message copies and the reputation of the
//! validators that submitted them.
//!
//! Validators relay messages from one ledger to another. For each message
//! every validator submits its own copy. `msg_verify` groups the copies of
//! a round by fingerprint, weighs each group by the credibility of its
//! validators and accepts the message of the heaviest group if its share
//! reaches a threshold. `node_evaluation` keeps the credibility of the
//! validators, raises or lowers it by the outcome of each round, and draws
//! duty rosters that favour the validators it has come to trust.

pub mod credibility;
pub mod fingerprint;
pub mod identity;
pub mod lottery;
pub mod message;
pub mod msg_verify;
pub mod node_evaluation;
pub mod ranking;
pub mod reputation;
pub mod round;
pub mod selector;
pub mod shares;
pub mod store;
pub mod tally;
