//! The records that the contract stores, each with its mathematical view.

use vstd::prelude::*;

use crate::table::Key;

verus! {

/// An account or a contract on the network: the 256-bit public key of an
/// account, or the 256-bit hash that identifies a contract, in two halves.
#[derive(Clone, Copy, Debug, PartialEq, Eq, Structural)]
pub struct Address {
    pub is_contract: bool,
    pub high: u128,
    pub low: u128,
}

impl Key for Address {
    fn same(&self, other: &Self) -> (r: bool) {
        *self == *other
    }
}

/// Why a call is refused.
#[derive(Clone, Copy, Debug, PartialEq, Eq, Structural)]
pub enum ContractError {
    AlreadyInitialized,
    InvalidAmount,
    ActiveLoanExists,
    LoanBelowMinAmount,
    InsufficientFunds,
    NoActiveLoan,
    UnauthorizedCaller,
    InvalidStateTransition,
    /// A refusal by one of the host's own checks (the pause switch, the token
    /// list, the approval of the administrators), by its error code.
    Code(u32),
}

/// Where a loan stands.
#[derive(Clone, Copy, Debug, PartialEq, Eq, Structural)]
pub enum LoanStatus {
    Active,
    Repaid,
    Defaulted,
    PartialDefault,
    ForgivenDefault,
}

/// One stake behind a borrower.
#[derive(Clone, Copy, Debug, PartialEq, Eq, Structural)]
pub struct VouchRecord {
    pub voucher: Address,
    pub token: Address,
    pub stake: i128,
}

/// One instalment of an amortisation schedule.
#[derive(Clone, Copy, Debug, PartialEq, Eq, Structural)]
pub struct Installment {
    pub due_at: u64,
    pub amount: i128,
}

/// The terms that a contract starts with.
#[derive(Clone, Copy, Debug, PartialEq, Eq, Structural)]
pub struct Defaults {
    pub yield_bps: i128,
    pub slash_bps: i128,
    pub max_vouchers: u32,
    pub min_loan_amount: i128,
    pub loan_duration: u64,
    pub max_loan_to_stake_ratio: u32,
    pub min_vouch_age_secs: u64,
    pub liquidity_mining_rate_bps: u32,
}

/// The terms in force.
#[derive(Debug, PartialEq)]
pub struct Config {
    pub admins: Vec<Address>,
    pub admin_threshold: u32,
    pub token: Address,
    pub allowed_tokens: Vec<Address>,
    pub yield_bps: i128,
    pub slash_bps: i128,
    pub max_vouchers: u32,
    pub min_loan_amount: i128,
    pub loan_duration: u64,
    pub max_loan_to_stake_ratio: u32,
    pub grace_period: u64,
    pub min_vouch_age_secs: u64,
    pub prepayment_penalty_bps: u32,
    pub liquidity_mining_rate_bps: u32,
    pub partial_default_threshold_bps: u32,
}

#[verifier::ext_equal]
pub struct ConfigView {
    pub admins: Seq<Address>,
    pub admin_threshold: u32,
    pub token: Address,
    pub allowed_tokens: Seq<Address>,
    pub yield_bps: i128,
    pub slash_bps: i128,
    pub max_vouchers: u32,
    pub min_loan_amount: i128,
    pub loan_duration: u64,
    pub max_loan_to_stake_ratio: u32,
    pub grace_period: u64,
    pub min_vouch_age_secs: u64,
    pub prepayment_penalty_bps: u32,
    pub liquidity_mining_rate_bps: u32,
    pub partial_default_threshold_bps: u32,
}

impl View for Config {
    type V = ConfigView;

    open spec fn view(&self) -> ConfigView {
        ConfigView {
            admins: self.admins@,
            admin_threshold: self.admin_threshold,
            token: self.token,
            allowed_tokens: self.allowed_tokens@,
            yield_bps: self.yield_bps,
            slash_bps: self.slash_bps,
            max_vouchers: self.max_vouchers,
            min_loan_amount: self.min_loan_amount,
            loan_duration: self.loan_duration,
            max_loan_to_stake_ratio: self.max_loan_to_stake_ratio,
            grace_period: self.grace_period,
            min_vouch_age_secs: self.min_vouch_age_secs,
            prepayment_penalty_bps: self.prepayment_penalty_bps,
            liquidity_mining_rate_bps: self.liquidity_mining_rate_bps,
            partial_default_threshold_bps: self.partial_default_threshold_bps,
        }
    }
}

/// A loan, from disbursement to its end.
#[derive(Debug, PartialEq)]
pub struct LoanRecord {
    pub id: u64,
    pub borrower: Address,
    pub co_borrowers: Vec<Address>,
    pub amount: i128,
    pub amount_repaid: i128,
    pub total_yield: i128,
    pub status: LoanStatus,
    pub created_at: u64,
    pub disbursement_timestamp: u64,
    pub repayment_timestamp: Option<u64>,
    pub deadline: u64,
    pub loan_purpose: String,
    pub token_address: Address,
    pub amortization_schedule: Vec<Installment>,
    pub reminder_sent: bool,
    pub risk_score: u32,
}

#[verifier::ext_equal]
pub struct LoanView {
    pub id: u64,
    pub borrower: Address,
    pub co_borrowers: Seq<Address>,
    pub amount: i128,
    pub amount_repaid: i128,
    pub total_yield: i128,
    pub status: LoanStatus,
    pub created_at: u64,
    pub disbursement_timestamp: u64,
    pub repayment_timestamp: Option<u64>,
    pub deadline: u64,
    pub loan_purpose: Seq<char>,
    pub token_address: Address,
    pub amortization_schedule: Seq<Installment>,
    pub reminder_sent: bool,
    pub risk_score: u32,
}

impl LoanView {
    /// Principal and yield together.
    pub open spec fn owed(self) -> int {
        self.amount + self.total_yield
    }

    /// What is still to be paid.
    pub open spec fn outstanding(self) -> int {
        self.owed() - self.amount_repaid
    }
}

impl View for LoanRecord {
    type V = LoanView;

    open spec fn view(&self) -> LoanView {
        LoanView {
            id: self.id,
            borrower: self.borrower,
            co_borrowers: self.co_borrowers@,
            amount: self.amount,
            amount_repaid: self.amount_repaid,
            total_yield: self.total_yield,
            status: self.status,
            created_at: self.created_at,
            disbursement_timestamp: self.disbursement_timestamp,
            repayment_timestamp: self.repayment_timestamp,
            deadline: self.deadline,
            loan_purpose: self.loan_purpose@,
            token_address: self.token_address,
            amortization_schedule: self.amortization_schedule@,
            reminder_sent: self.reminder_sent,
            risk_score: self.risk_score,
        }
    }
}

impl Clone for LoanRecord {
    fn clone(&self) -> (r: Self)
        ensures
            r@ == self@,
    {
        LoanRecord {
            id: self.id,
            borrower: self.borrower,
            co_borrowers: copy_all(&self.co_borrowers),
            amount: self.amount,
            amount_repaid: self.amount_repaid,
            total_yield: self.total_yield,
            status: self.status,
            created_at: self.created_at,
            disbursement_timestamp: self.disbursement_timestamp,
            repayment_timestamp: self.repayment_timestamp,
            deadline: self.deadline,
            loan_purpose: self.loan_purpose.clone(),
            token_address: self.token_address,
            amortization_schedule: copy_all(&self.amortization_schedule),
            reminder_sent: self.reminder_sent,
            risk_score: self.risk_score,
        }
    }
}

/// What a default cost the vouchers, and whether it was forgiven.
#[derive(Debug, PartialEq)]
pub struct SlashRecord {
    pub loan_id: u64,
    pub borrower: Address,
    pub total_slashed: i128,
    pub slash_timestamp: u64,
    pub forgiven: bool,
    pub forgiveness_reason: String,
    pub forgiven_at: u64,
}

#[verifier::ext_equal]
pub struct SlashView {
    pub loan_id: u64,
    pub borrower: Address,
    pub total_slashed: i128,
    pub slash_timestamp: u64,
    pub forgiven: bool,
    pub forgiveness_reason: Seq<char>,
    pub forgiven_at: u64,
}

impl View for SlashRecord {
    type V = SlashView;

    open spec fn view(&self) -> SlashView {
        SlashView {
            loan_id: self.loan_id,
            borrower: self.borrower,
            total_slashed: self.total_slashed,
            slash_timestamp: self.slash_timestamp,
            forgiven: self.forgiven,
            forgiveness_reason: self.forgiveness_reason@,
            forgiven_at: self.forgiven_at,
        }
    }
}

impl Clone for SlashRecord {
    fn clone(&self) -> (r: Self)
        ensures
            r@ == self@,
    {
        SlashRecord {
            loan_id: self.loan_id,
            borrower: self.borrower,
            total_slashed: self.total_slashed,
            slash_timestamp: self.slash_timestamp,
            forgiven: self.forgiven,
            forgiveness_reason: self.forgiveness_reason.clone(),
            forgiven_at: self.forgiven_at,
        }
    }
}

/// The items of `items`, in order.
pub fn copy_all<T: Copy>(items: &Vec<T>) -> (r: Vec<T>)
    ensures
        r@ == items@,
{
    let mut r: Vec<T> = Vec::new();
    for i in 0..items.len()
        invariant
            r@ == items@.take(i as int),
    {
        r.push(items[i]);
        assert(items@.take(i + 1) =~= items@.take(i as int).push(items@[i as int]));
    }
    assert(items@.take(items@.len() as int) =~= items@);
    r
}

} // verus!
