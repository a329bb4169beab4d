//! On-chain governance engines: approval-voting council elections and
//! deposit-backed public referenda, driven by a per-block transition hook.
//!
//! The engines are deterministic state machines over plain values. Account
//! identifiers, balances and block numbers are unsigned integers; the balance
//! book they draw bonds from is an explicit [`ledger::StakeLedger`] value that
//! every operation threads through, so each operation's effect on stakes is
//! part of its contract.

pub mod council;
pub mod democracy;
pub mod governance;
pub mod ledger;
pub mod timestamp;
pub mod vote_threshold;

pub use council::CouncilState;
pub use council::TestingConfig;
pub use democracy::DemocracyState;
pub use democracy::Proposal;
pub use governance::Governance;
pub use ledger::Account;
pub use ledger::StakeLedger;
pub use timestamp::Module as TimestampState;
pub use vote_threshold::VoteThreshold;
