//! What each call of the contract answers and changes.
//!
//! For a call `f` there are up to three functions: `f_result` is the answer,
//! `f_post` the invocation once the call is over, and `f_defined` says whether
//! every amount on the way fits its type. Where it does not, the call has no
//! answer at all and must not be made.

use vstd::prelude::*;

use crate::env::{EffectView, EnvView, EventView};
use crate::ledger::LedgerView;
use crate::money::{
    fits, payouts, payouts_fit, quotient, remainders, slash_total, slashes_fit, stake_total,
    stake_totals_fit, BPS,
};
use crate::types::{
    Address, ConfigView, ContractError, Defaults, LoanStatus, LoanView, SlashView,
};

verus! {

/// One transfer out of the account `from` for each payment.
pub open spec fn transfers(token: Address, from: Address, payments: Seq<(Address, i128)>) -> Seq<
    EffectView,
> {
    payments.map_values(
        |payment: (Address, i128)|
            EffectView::Transfer { token, from, to: payment.0, amount: payment.1 },
    )
}

// --- Initialisation --------------------------------------------------------

/// The terms that a contract starts with.
pub open spec fn initial_config(
    admins: Seq<Address>,
    admin_threshold: u32,
    token: Address,
    defaults: Defaults,
) -> ConfigView {
    ConfigView {
        admins,
        admin_threshold,
        token,
        allowed_tokens: Seq::empty(),
        yield_bps: defaults.yield_bps,
        slash_bps: defaults.slash_bps,
        max_vouchers: defaults.max_vouchers,
        min_loan_amount: defaults.min_loan_amount,
        loan_duration: defaults.loan_duration,
        max_loan_to_stake_ratio: defaults.max_loan_to_stake_ratio,
        grace_period: 0,
        min_vouch_age_secs: defaults.min_vouch_age_secs,
        prepayment_penalty_bps: 0,
        liquidity_mining_rate_bps: defaults.liquidity_mining_rate_bps,
        partial_default_threshold_bps: 0,
    }
}

pub open spec fn initialize_result(
    env: EnvView,
    admins: Seq<Address>,
    admin_threshold: u32,
) -> Result<(), ContractError> {
    if env.ledger.config is Some {
        Err(ContractError::AlreadyInitialized)
    } else if 1 <= admin_threshold <= admins.len() {
        Ok(())
    } else {
        Err(ContractError::InvalidAmount)
    }
}

pub open spec fn initialize_post(
    env: EnvView,
    deployer: Address,
    admins: Seq<Address>,
    admin_threshold: u32,
    token: Address,
    defaults: Defaults,
) -> EnvView {
    let asked = env.emit(EffectView::RequireAuth { who: deployer });
    if initialize_result(env, admins, admin_threshold) is Ok {
        asked.with_ledger(
            LedgerView {
                deployer: Some(deployer),
                config: Some(initial_config(admins, admin_threshold, token, defaults)),
                ..env.ledger
            },
        )
    } else {
        asked
    }
}

// --- Requesting a loan -----------------------------------------------------

pub open spec fn request_loan_result(
    env: EnvView,
    borrower: Address,
    amount: i128,
    threshold: i128,
    token: Address,
) -> Result<(), ContractError> {
    if env.not_paused is Err {
        env.not_paused
    } else if env.ledger.has_active_loan(borrower) {
        Err(ContractError::ActiveLoanExists)
    } else if !env.admits(token) {
        Err(env.token_refusal)
    } else if amount < env.ledger.config->0.min_loan_amount {
        Err(ContractError::LoanBelowMinAmount)
    } else if stake_total(env.ledger.vouches_of(borrower), token) < threshold {
        Err(ContractError::InsufficientFunds)
    } else {
        Ok(())
    }
}

pub open spec fn request_loan_defined(
    env: EnvView,
    borrower: Address,
    amount: i128,
    threshold: i128,
    token: Address,
) -> bool {
    let config = env.ledger.config->0;
    env.not_paused is Ok && !env.ledger.has_active_loan(borrower) && env.admits(token) ==> {
        &&& env.ledger.config is Some
        &&& amount >= config.min_loan_amount ==> stake_totals_fit(
            env.ledger.vouches_of(borrower),
            token,
        )
        &&& request_loan_result(env, borrower, amount, threshold, token) is Ok ==> {
            &&& env.ledger.loans_numbered() < u64::MAX
            &&& fits(amount * config.yield_bps)
            &&& env.timestamp + config.loan_duration <= u64::MAX
        }
    }
}

/// The record of a loan that has just been granted.
pub open spec fn new_loan(
    env: EnvView,
    borrower: Address,
    amount: i128,
    loan_purpose: Seq<char>,
    token: Address,
) -> LoanView {
    let config = env.ledger.config->0;
    LoanView {
        id: (env.ledger.loans_numbered() + 1) as u64,
        borrower,
        co_borrowers: Seq::empty(),
        amount,
        amount_repaid: 0,
        total_yield: quotient(amount * config.yield_bps, BPS as int) as i128,
        status: LoanStatus::Active,
        created_at: env.timestamp,
        disbursement_timestamp: env.timestamp,
        repayment_timestamp: None,
        deadline: (env.timestamp + config.loan_duration) as u64,
        loan_purpose,
        token_address: token,
        amortization_schedule: Seq::empty(),
        reminder_sent: false,
        risk_score: 0,
    }
}

pub open spec fn request_loan_post(
    env: EnvView,
    borrower: Address,
    amount: i128,
    threshold: i128,
    loan_purpose: Seq<char>,
    token: Address,
) -> EnvView {
    let asked = env.emit(EffectView::RequireAuth { who: borrower });
    if request_loan_result(env, borrower, amount, threshold, token) is Ok {
        let loan = new_loan(env, borrower, amount, loan_purpose, token);
        asked.with_ledger(
            LedgerView {
                loan_counter: Some(loan.id),
                loans: env.ledger.loans.insert(loan.id, loan),
                active_loans: env.ledger.active_loans.insert(borrower, loan.id),
                ..env.ledger
            },
        ).emit(EffectView::Transfer { token, from: env.contract, to: borrower, amount }).emit(
            EffectView::Publish { event: EventView::LoanCreated { borrower, amount } },
        )
    } else {
        asked
    }
}

// --- Repaying --------------------------------------------------------------

/// What a payment on the open loan of `borrower` is answered, all checks on the
/// call itself passed.
pub open spec fn settle_result(env: EnvView, borrower: Address, payment: i128) -> Result<
    (),
    ContractError,
> {
    match env.ledger.active_loan(borrower) {
        None => Err(ContractError::NoActiveLoan),
        Some(loan) => if payment <= 0 || payment > loan.outstanding() {
            Err(ContractError::InvalidAmount)
        } else {
            env.token_check(loan.token_address)
        },
    }
}

pub open spec fn settle_defined(env: EnvView, borrower: Address, payment: i128) -> bool {
    match env.ledger.active_loan(borrower) {
        None => true,
        Some(loan) => payment > 0 ==> {
            &&& fits(loan.owed())
            &&& fits(loan.outstanding())
            &&& settle_result(env, borrower, payment) is Ok && payment == loan.outstanding()
                ==> payouts_fit(
                env.ledger.vouches_of(borrower),
                loan.token_address,
                loan.total_yield,
            )
        },
    }
}

/// The record of a loan after a payment.
pub open spec fn paid_loan(loan: LoanView, payment: i128, timestamp: u64) -> LoanView {
    let paid = LoanView { amount_repaid: (loan.amount_repaid + payment) as i128, ..loan };
    if payment == loan.outstanding() {
        LoanView { status: LoanStatus::Repaid, repayment_timestamp: Some(timestamp), ..paid }
    } else {
        paid
    }
}

/// The invocation once a payment has been settled. A payment of all that is
/// outstanding closes the loan: the vouchers get their stakes and the yield, the
/// queued withdrawals are processed, and the stakes are gone.
pub open spec fn settle_post(env: EnvView, borrower: Address, payment: i128) -> EnvView {
    if settle_result(env, borrower, payment) is Err {
        env
    } else {
        let loan = env.ledger.active_loan(borrower)->0;
        let token = loan.token_address;
        let paid = paid_loan(loan, payment, env.timestamp);
        let received = env.emit(
            EffectView::Transfer { token, from: borrower, to: env.contract, amount: payment },
        );
        if payment == loan.outstanding() {
            let vouches = env.ledger.vouches_of(borrower);
            let list = payouts(vouches, token, loan.total_yield, stake_total(vouches, token));
            received.emit_all(transfers(token, env.contract, list)).emit(
                EffectView::ProcessWithdrawalQueue { borrower },
            ).emit(
                EffectView::Publish {
                    event: EventView::LoanRepaid { borrower, amount: loan.amount },
                },
            ).with_ledger(
                LedgerView {
                    loans: env.ledger.loans.insert(loan.id, paid),
                    active_loans: env.ledger.active_loans.remove(borrower),
                    vouches: env.ledger.vouches.remove(borrower),
                    ..env.ledger
                },
            )
        } else {
            received.with_ledger(
                LedgerView { loans: env.ledger.loans.insert(loan.id, paid), ..env.ledger },
            )
        }
    }
}

pub open spec fn repay_result(env: EnvView, borrower: Address, payment: i128) -> Result<
    (),
    ContractError,
> {
    if env.not_paused is Err {
        env.not_paused
    } else {
        settle_result(env, borrower, payment)
    }
}

pub open spec fn repay_defined(env: EnvView, borrower: Address, payment: i128) -> bool {
    env.not_paused is Ok ==> settle_defined(env, borrower, payment)
}

pub open spec fn repay_post(env: EnvView, borrower: Address, payment: i128) -> EnvView {
    let asked = env.emit(EffectView::RequireAuth { who: borrower });
    if env.not_paused is Err {
        asked
    } else {
        settle_post(asked, borrower, payment)
    }
}

// --- Repaying in a batch ---------------------------------------------------

/// The invocation once one entry of a batch has been processed.
pub open spec fn batch_entry_post(env: EnvView, borrower: Address, payment: i128) -> EnvView {
    let settled = settle_post(
        env.emit(EffectView::RequireAuth { who: borrower }),
        borrower,
        payment,
    );
    if settle_result(env, borrower, payment) is Ok {
        settled.emit(EffectView::Publish { event: EventView::BatchPayment { borrower, payment } })
    } else {
        settled
    }
}

/// What a batch is answered before its first entry.
pub open spec fn batch_check(
    env: EnvView,
    borrowers: Seq<Address>,
    payments: Seq<i128>,
) -> Result<(), ContractError> {
    if env.not_paused is Err {
        env.not_paused
    } else if borrowers.len() != payments.len() || borrowers.len() == 0 {
        Err(ContractError::InvalidAmount)
    } else {
        Ok(())
    }
}

/// The answer and the invocation after the first `n` entries, of which none is
/// processed after one that is refused.
pub open spec fn batch_run(
    env: EnvView,
    borrowers: Seq<Address>,
    payments: Seq<i128>,
    n: nat,
) -> (Result<(), ContractError>, EnvView)
    decreases n,
{
    if n == 0 {
        (Ok(()), env)
    } else {
        let k = (n - 1) as nat;
        let (result, before) = batch_run(env, borrowers, payments, k);
        if result is Err {
            (result, before)
        } else {
            (
                settle_result(before, borrowers[k as int], payments[k as int]),
                batch_entry_post(before, borrowers[k as int], payments[k as int]),
            )
        }
    }
}

pub open spec fn batch_repay_result(
    env: EnvView,
    borrowers: Seq<Address>,
    payments: Seq<i128>,
) -> Result<(), ContractError> {
    if batch_check(env, borrowers, payments) is Err {
        batch_check(env, borrowers, payments)
    } else {
        batch_run(env, borrowers, payments, borrowers.len()).0
    }
}

pub open spec fn batch_repay_post(
    env: EnvView,
    borrowers: Seq<Address>,
    payments: Seq<i128>,
) -> EnvView {
    if batch_check(env, borrowers, payments) is Err {
        env
    } else {
        batch_run(env, borrowers, payments, borrowers.len()).1
    }
}

/// Whether the entry after the first `n` is either not reached or defined.
pub open spec fn batch_entry_defined(
    env: EnvView,
    borrowers: Seq<Address>,
    payments: Seq<i128>,
    n: nat,
) -> bool {
    let (result, before) = batch_run(env, borrowers, payments, n);
    result is Ok ==> settle_defined(before, borrowers[n as int], payments[n as int])
}

pub open spec fn batch_repay_defined(
    env: EnvView,
    borrowers: Seq<Address>,
    payments: Seq<i128>,
) -> bool {
    batch_check(env, borrowers, payments) is Ok ==> forall|n: nat|
        n < borrowers.len() ==> #[trigger] batch_entry_defined(env, borrowers, payments, n)
}

// --- Partial default -------------------------------------------------------

/// How much of a loan has been repaid, in basis points.
pub open spec fn repaid_bps(loan: LoanView) -> int {
    if loan.owed() > 0 {
        quotient(loan.amount_repaid * BPS, loan.owed())
    } else {
        0
    }
}

/// The rate at which the stakes behind a loan are slashed: the full rate, in
/// proportion to what has not been repaid.
pub open spec fn slash_rate(slash_bps: i128, loan: LoanView) -> int {
    quotient(slash_bps * (BPS - repaid_bps(loan)), BPS as int)
}

/// Whether a running loan is due for judgement: something of it has been repaid, and
/// its deadline has passed. At the instant of the deadline itself it has not.
pub open spec fn overdue_in_part(loan: LoanView, timestamp: u64) -> bool {
    &&& loan.status == LoanStatus::Active
    &&& loan.amount_repaid > 0
    &&& timestamp > loan.deadline
}

pub open spec fn mark_partial_default_result(
    env: EnvView,
    approval: Result<(), ContractError>,
    borrower: Address,
) -> Result<(), ContractError> {
    let threshold = env.ledger.config->0.partial_default_threshold_bps;
    if env.not_paused is Err {
        env.not_paused
    } else if approval is Err {
        approval
    } else if threshold == 0 {
        Err(ContractError::InvalidStateTransition)
    } else {
        match env.ledger.active_loan(borrower) {
            None => Err(ContractError::NoActiveLoan),
            Some(loan) => if !overdue_in_part(loan, env.timestamp) || repaid_bps(loan)
                >= threshold {
                Err(ContractError::InvalidStateTransition)
            } else {
                env.token_check(loan.token_address)
            },
        }
    }
}

pub open spec fn mark_partial_default_defined(
    env: EnvView,
    approval: Result<(), ContractError>,
    borrower: Address,
) -> bool {
    let config = env.ledger.config->0;
    env.not_paused is Ok && approval is Ok ==> {
        &&& env.ledger.config is Some
        &&& config.partial_default_threshold_bps != 0 ==> (match env.ledger.active_loan(borrower) {
            None => true,
            Some(loan) => overdue_in_part(loan, env.timestamp) ==> {
                &&& fits(loan.owed())
                &&& loan.owed() > 0 ==> fits(loan.amount_repaid * BPS)
                &&& repaid_bps(loan) < config.partial_default_threshold_bps ==> {
                    &&& fits(BPS - repaid_bps(loan))
                    &&& fits(config.slash_bps * (BPS - repaid_bps(loan)))
                    &&& env.admits(loan.token_address) ==> {
                        &&& slashes_fit(
                            env.ledger.vouches_of(borrower),
                            loan.token_address,
                            slash_rate(config.slash_bps, loan),
                        )
                        &&& env.ledger.partial_default_count(borrower) < u32::MAX
                    }
                }
            },
        })
    }
}

/// The invocation once a loan has been marked: the stakes are slashed, what is
/// left of them goes back to the vouchers, and the borrower has no open loan.
pub open spec fn mark_partial_default_post(
    env: EnvView,
    approval: Result<(), ContractError>,
    borrower: Address,
) -> EnvView {
    if mark_partial_default_result(env, approval, borrower) is Err {
        env
    } else {
        let loan = env.ledger.active_loan(borrower)->0;
        let token = loan.token_address;
        let rate = slash_rate(env.ledger.config->0.slash_bps, loan);
        let vouches = env.ledger.vouches_of(borrower);
        let total_slashed = slash_total(vouches, token, rate) as i128;
        env.emit_all(transfers(token, env.contract, remainders(vouches, token, rate))).emit(
            EffectView::Publish { event: EventView::PartialDefault { borrower, total_slashed } },
        ).with_ledger(
            LedgerView {
                loans: env.ledger.loans.insert(
                    loan.id,
                    LoanView { status: LoanStatus::PartialDefault, ..loan },
                ),
                active_loans: env.ledger.active_loans.remove(borrower),
                vouches: env.ledger.vouches.remove(borrower),
                slash_records: env.ledger.slash_records.insert(
                    loan.id,
                    SlashView {
                        loan_id: loan.id,
                        borrower,
                        total_slashed,
                        slash_timestamp: env.timestamp,
                        forgiven: false,
                        forgiveness_reason: Seq::empty(),
                        forgiven_at: 0,
                    },
                ),
                partial_default_counts: env.ledger.partial_default_counts.insert(
                    borrower,
                    (env.ledger.partial_default_count(borrower) + 1) as u32,
                ),
                ..env.ledger
            },
        )
    }
}

// --- Forgiving a default ---------------------------------------------------

pub open spec fn forgive_default_result(
    env: EnvView,
    approval: Result<(), ContractError>,
    borrower: Address,
    loan_id: u64,
) -> Result<(), ContractError> {
    if env.not_paused is Err {
        env.not_paused
    } else if approval is Err {
        approval
    } else if !env.ledger.loans.contains_key(loan_id) {
        Err(ContractError::NoActiveLoan)
    } else {
        let loan = env.ledger.loans[loan_id];
        if loan.borrower != borrower {
            Err(ContractError::UnauthorizedCaller)
        } else if loan.status == LoanStatus::Defaulted || loan.status
            == LoanStatus::PartialDefault {
            Ok(())
        } else {
            Err(ContractError::InvalidStateTransition)
        }
    }
}

/// The slash record of a forgiven default.
pub open spec fn forgiven_record(
    env: EnvView,
    borrower: Address,
    loan_id: u64,
    reason: Seq<char>,
) -> SlashView {
    let record = match env.ledger.slash_record(loan_id) {
        Some(record) => record,
        None => SlashView {
            loan_id,
            borrower,
            total_slashed: 0,
            slash_timestamp: 0,
            forgiven: false,
            forgiveness_reason: Seq::empty(),
            forgiven_at: 0,
        },
    };
    SlashView {
        forgiven: true,
        forgiveness_reason: reason,
        forgiven_at: env.timestamp,
        ..record
    }
}

/// The invocation once a default has been forgiven: what was slashed stays
/// slashed, and the borrower has one default less to their name.
pub open spec fn forgive_default_post(
    env: EnvView,
    approval: Result<(), ContractError>,
    borrower: Address,
    loan_id: u64,
    reason: Seq<char>,
) -> EnvView {
    if forgive_default_result(env, approval, borrower, loan_id) is Err {
        env
    } else {
        let count = env.ledger.default_count(borrower);
        env.emit(
            EffectView::Publish { event: EventView::DefaultForgiven { borrower, loan_id, reason } },
        ).with_ledger(
            LedgerView {
                loans: env.ledger.loans.insert(
                    loan_id,
                    LoanView { status: LoanStatus::ForgivenDefault, ..env.ledger.loans[loan_id] },
                ),
                slash_records: env.ledger.slash_records.insert(
                    loan_id,
                    forgiven_record(env, borrower, loan_id, reason),
                ),
                default_counts: if count > 0 {
                    env.ledger.default_counts.insert(borrower, (count - 1) as u32)
                } else {
                    env.ledger.default_counts
                },
                ..env.ledger
            },
        )
    }
}

} // verus!
