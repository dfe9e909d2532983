//! The rules of a lending contract in which a borrower's loan is backed by the
//! stakes of the people who vouch for them.
//!
//! The library decides: given what the contract has stored and what the host
//! says of one invocation, it computes the answer, the new stored entries and
//! the outside actions (authorisations, token transfers, events) in the order
//! in which they are due. Storing and acting are left to the caller.

pub mod contract;
pub mod env;
pub mod guarantees;
pub mod history;
pub mod laws;
pub mod ledger;
pub mod money;
pub mod rules;
pub mod table;
pub mod types;

pub use contract::QuorumCreditContract;
pub use env::{Effect, EffectView, Env, EnvView, Event, EventView, Outbox};
pub use ledger::{Ledger, LedgerView};
pub use table::{Key, Table};
pub use types::{
    Address, Config, ConfigView, ContractError, Defaults, Installment, LoanRecord, LoanStatus,
    LoanView, SlashRecord, SlashView, VouchRecord,
};
