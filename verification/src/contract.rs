//! The calls of the contract.
//!
//! A call that adds, multiplies or counts comes in two forms. `try_f` gives
//! `None`, and changes nothing, where an amount on the way does not fit its
//! type (or the terms are missing); `f` is for callers who know that this does
//! not happen.

use vstd::prelude::*;

use crate::env::{Effect, Env, EnvView, Event};
use crate::money::{
    add_stakes, payouts, remainders, scale, slash_total, stake_total, work_out_payouts,
    work_out_slash, BPS,
};
use crate::rules::{
    batch_check, batch_entry_defined, batch_entry_post, batch_repay_defined, batch_repay_post,
    batch_repay_result, batch_run, forgive_default_post, forgive_default_result, forgiven_record,
    initialize_post, initialize_result, mark_partial_default_defined, mark_partial_default_post,
    mark_partial_default_result, new_loan, paid_loan, repay_defined, repay_post, repay_result,
    request_loan_defined, request_loan_post, request_loan_result, settle_defined, settle_post,
    settle_result, slash_rate, transfers,
};
use crate::types::{
    copy_all, Address, Config, ContractError, Defaults, LoanRecord, LoanStatus, LoanView, SlashRecord,
    VouchRecord,
};

verus! {

/// The contract. It holds nothing itself: what it has stored is in the
/// environment of each call.
pub struct QuorumCreditContract;

/// What a granted loan is given.
struct LoanTerms {
    loan_id: u64,
    total_yield: i128,
    deadline: u64,
}

/// What a payment that is accepted does.
struct Settlement {
    /// The record of the loan after the payment.
    loan: LoanRecord,
    /// What the vouchers get, where the payment closes the loan.
    payouts: Option<Vec<(Address, i128)>>,
}

/// What a partial default comes to.
struct Slash {
    /// The record of the loan, marked.
    loan: LoanRecord,
    total_slashed: i128,
    /// What is left to the vouchers.
    remainders: Vec<(Address, i128)>,
    /// The borrower's partial defaults, this one counted.
    count: u32,
}

impl Slash {
    /// Whether this is what marking the open loan of `borrower` comes to.
    spec fn marks(
        self,
        env: EnvView,
        approval: Result<(), ContractError>,
        borrower: Address,
    ) -> bool {
        let loan = env.ledger.active_loan(borrower)->0;
        let vouches = env.ledger.vouches_of(borrower);
        let rate = slash_rate(env.ledger.config->0.slash_bps, loan);
        &&& mark_partial_default_result(env, approval, borrower) is Ok
        &&& self.loan@ == (LoanView { status: LoanStatus::PartialDefault, ..loan })
        &&& self.total_slashed == slash_total(vouches, loan.token_address, rate)
        &&& self.remainders@ == remainders(vouches, loan.token_address, rate)
        &&& self.count == env.ledger.partial_default_count(borrower) + 1
    }
}

impl Settlement {
    /// Whether this is what `payment` does to the open loan of `borrower`.
    spec fn settles(self, env: EnvView, borrower: Address, payment: i128) -> bool {
        let loan = env.ledger.active_loan(borrower)->0;
        let vouches = env.ledger.vouches_of(borrower);
        let token = loan.token_address;
        &&& settle_result(env, borrower, payment) is Ok
        &&& self.loan@ == paid_loan(loan, payment, env.timestamp)
        &&& self.payouts is Some <==> payment == loan.outstanding()
        &&& self.payouts matches Some(list) ==> list@ == payouts(
            vouches,
            token,
            loan.total_yield,
            stake_total(vouches, token),
        )
    }
}

impl Env {
    /// A copy of the stakes behind `borrower`.
    fn stakes_behind(&self, borrower: Address) -> (r: Vec<VouchRecord>)
        ensures
            r@ == self@.ledger.vouches_of(borrower),
    {
        match self.ledger.vouches(borrower) {
            Some(vouches) => copy_all(vouches),
            None => Vec::new(),
        }
    }

    /// Has every payment sent from the contract's own account.
    fn send_all(&mut self, token: Address, payments: &Vec<(Address, i128)>)
        ensures
            final(self)@ == old(self)@.emit_all(
                transfers(token, old(self)@.contract, payments@),
            ),
    {
        let ghost all = transfers(token, self@.contract, payments@);
        assert(old(self)@.emit_all(all.take(0)) =~= old(self)@);
        for i in 0..payments.len()
            invariant
                all == transfers(token, old(self)@.contract, payments@),
                self@ == old(self)@.emit_all(all.take(i as int)),
        {
            let effect = Effect::Transfer {
                token,
                from: self.contract,
                to: payments[i].0,
                amount: payments[i].1,
            };
            self.outbox.push(effect);
            assert(all.take(i + 1) =~= all.take(i as int).push(effect@));
            assert(self@ =~= old(self)@.emit_all(all.take(i + 1)));
        }
        assert(all.take(payments@.len() as int) =~= all);
    }
}

impl QuorumCreditContract {
    /// Sets the contract up, once: who deployed it, who administers it and how
    /// many of them have to agree, and the token that it lends.
    pub fn initialize(
        env: &mut Env,
        deployer: Address,
        admins: Vec<Address>,
        admin_threshold: u32,
        token: Address,
        defaults: Defaults,
    ) -> (r: Result<(), ContractError>)
        ensures
            r == initialize_result(old(env)@, admins@, admin_threshold),
            final(env)@ == initialize_post(
                old(env)@,
                deployer,
                admins@,
                admin_threshold,
                token,
                defaults,
            ),
    {
        env.outbox.push(Effect::RequireAuth { who: deployer });
        if env.ledger.config().is_some() {
            return Err(ContractError::AlreadyInitialized);
        }
        if admins.len() == 0 || admin_threshold == 0 || admin_threshold as u64 > admins.len() as u64 {
            return Err(ContractError::InvalidAmount);
        }
        env.ledger.set_deployer(deployer);
        env.ledger.set_config(
            Config {
                admins,
                admin_threshold,
                token,
                allowed_tokens: Vec::new(),
                yield_bps: defaults.yield_bps,
                slash_bps: defaults.slash_bps,
                max_vouchers: defaults.max_vouchers,
                min_loan_amount: defaults.min_loan_amount,
                loan_duration: defaults.loan_duration,
                max_loan_to_stake_ratio: defaults.max_loan_to_stake_ratio,
                grace_period: 0,
                min_vouch_age_secs: defaults.min_vouch_age_secs,
                prepayment_penalty_bps: 0,
                liquidity_mining_rate_bps: defaults.liquidity_mining_rate_bps,
                partial_default_threshold_bps: 0,
            },
        );
        Ok(())
    }

    /// Decides on a loan and works out its terms.
    fn assess_loan(
        env: &Env,
        borrower: Address,
        amount: i128,
        threshold: i128,
        token: Address,
    ) -> (r: Option<Result<LoanTerms, ContractError>>)
        ensures
            r is Some <==> request_loan_defined(env@, borrower, amount, threshold, token),
            r matches Some(Err(e)) ==> request_loan_result(env@, borrower, amount, threshold, token)
                == Err::<(), ContractError>(e),
            r matches Some(Ok(terms)) ==> {
                let loan = new_loan(env@, borrower, amount, Seq::empty(), token);
                &&& request_loan_result(env@, borrower, amount, threshold, token) is Ok
                &&& terms.loan_id == loan.id
                &&& terms.total_yield == loan.total_yield
                &&& terms.deadline == loan.deadline
            },
    {
        if let Err(e) = env.not_paused {
            return Some(Err(e));
        }
        if env.ledger.has_active_loan(borrower) {
            return Some(Err(ContractError::ActiveLoanExists));
        }
        if let Err(e) = env.require_allowed_token(token) {
            return Some(Err(e));
        }
        let config = match env.ledger.config() {
            Some(config) => config,
            None => return None,
        };
        if amount < config.min_loan_amount {
            return Some(Err(ContractError::LoanBelowMinAmount));
        }
        let total_stake = match add_stakes(&env.stakes_behind(borrower), token) {
            Some(total) => total,
            None => return None,
        };
        if total_stake < threshold {
            return Some(Err(ContractError::InsufficientFunds));
        }
        let numbered: u64 = match env.ledger.loan_counter() {
            Some(n) => n,
            None => 0,
        };
        let loan_id = match numbered.checked_add(1) {
            Some(loan_id) => loan_id,
            None => return None,
        };
        let total_yield = match scale(amount, config.yield_bps, BPS) {
            Some(total_yield) => total_yield,
            None => return None,
        };
        let deadline = match env.timestamp.checked_add(config.loan_duration) {
            Some(deadline) => deadline,
            None => return None,
        };
        Some(Ok(LoanTerms { loan_id, total_yield, deadline }))
    }

    /// `request_loan`, or `None` where an amount does not fit.
    pub fn try_request_loan(
        env: &mut Env,
        borrower: Address,
        amount: i128,
        threshold: i128,
        loan_purpose: String,
        token: Address,
    ) -> (r: Option<Result<(), ContractError>>)
        ensures
            r is Some <==> request_loan_defined(old(env)@, borrower, amount, threshold, token),
            r is None ==> final(env)@ == old(env)@,
            r matches Some(answer) ==> {
                &&& answer == request_loan_result(old(env)@, borrower, amount, threshold, token)
                &&& final(env)@ == request_loan_post(
                    old(env)@,
                    borrower,
                    amount,
                    threshold,
                    loan_purpose@,
                    token,
                )
            },
    {
        let terms = match Self::assess_loan(env, borrower, amount, threshold, token) {
            Some(Ok(terms)) => terms,
            Some(Err(e)) => {
                env.outbox.push(Effect::RequireAuth { who: borrower });
                return Some(Err(e));
            },
            None => return None,
        };
        env.outbox.push(Effect::RequireAuth { who: borrower });
        env.ledger.set_loan_counter(terms.loan_id);
        let loan = LoanRecord {
            id: terms.loan_id,
            borrower,
            co_borrowers: Vec::new(),
            amount,
            amount_repaid: 0,
            total_yield: terms.total_yield,
            status: LoanStatus::Active,
            created_at: env.timestamp,
            disbursement_timestamp: env.timestamp,
            repayment_timestamp: None,
            deadline: terms.deadline,
            loan_purpose,
            token_address: token,
            amortization_schedule: Vec::new(),
            reminder_sent: false,
            risk_score: 0,
        };
        assert(loan@ =~= new_loan(old(env)@, borrower, amount, loan_purpose@, token));
        env.ledger.set_loan(terms.loan_id, loan);
        env.ledger.set_active_loan_id(borrower, terms.loan_id);
        env.outbox.push(
            Effect::Transfer { token, from: env.contract, to: borrower, amount },
        );
        env.outbox.push(Effect::Publish { event: Event::LoanCreated { borrower, amount } });
        Some(Ok(()))
    }

    /// Lends `amount` of `token` to `borrower`, if the stakes behind them in that
    /// token come to `threshold`.
    pub fn request_loan(
        env: &mut Env,
        borrower: Address,
        amount: i128,
        threshold: i128,
        loan_purpose: String,
        token: Address,
    ) -> (r: Result<(), ContractError>)
        requires
            request_loan_defined(old(env)@, borrower, amount, threshold, token),
        ensures
            r == request_loan_result(old(env)@, borrower, amount, threshold, token),
            final(env)@ == request_loan_post(
                old(env)@,
                borrower,
                amount,
                threshold,
                loan_purpose@,
                token,
            ),
    {
        Self::try_request_loan(env, borrower, amount, threshold, loan_purpose, token).unwrap()
    }

    /// Decides on a payment and works out what it does.
    fn assess_payment(env: &Env, borrower: Address, payment: i128) -> (r: Option<
        Result<Settlement, ContractError>,
    >)
        ensures
            r is Some <==> settle_defined(env@, borrower, payment),
            r matches Some(Err(e)) ==> settle_result(env@, borrower, payment) == Err::<
                (),
                ContractError,
            >(e),
            r matches Some(Ok(settlement)) ==> settlement.settles(env@, borrower, payment),
    {
        let mut loan = match env.ledger.active_loan(borrower) {
            Some(loan) => loan.clone(),
            None => return Some(Err(ContractError::NoActiveLoan)),
        };
        if payment <= 0 {
            return Some(Err(ContractError::InvalidAmount));
        }
        let total_owed = match loan.amount.checked_add(loan.total_yield) {
            Some(total_owed) => total_owed,
            None => return None,
        };
        let outstanding = match total_owed.checked_sub(loan.amount_repaid) {
            Some(outstanding) => outstanding,
            None => return None,
        };
        if payment > outstanding {
            return Some(Err(ContractError::InvalidAmount));
        }
        if let Err(e) = env.require_allowed_token(loan.token_address) {
            return Some(Err(e));
        }
        loan.amount_repaid = loan.amount_repaid + payment;
        if loan.amount_repaid >= total_owed {
            loan.status = LoanStatus::Repaid;
            loan.repayment_timestamp = Some(env.timestamp);
            let vouches = env.stakes_behind(borrower);
            match work_out_payouts(&vouches, loan.token_address, loan.total_yield) {
                Some(list) => Some(Ok(Settlement { loan, payouts: Some(list) })),
                None => None,
            }
        } else {
            Some(Ok(Settlement { loan, payouts: None }))
        }
    }

    /// Takes a payment in, and closes the loan where it is the last.
    fn carry_out(env: &mut Env, borrower: Address, payment: i128, settlement: Settlement)
        requires
            settlement.settles(old(env)@, borrower, payment),
        ensures
            final(env)@ == settle_post(old(env)@, borrower, payment),
    {
        let Settlement { loan, payouts } = settlement;
        let token = loan.token_address;
        env.outbox.push(
            Effect::Transfer { token, from: borrower, to: env.contract, amount: payment },
        );
        if let Some(list) = payouts {
            env.send_all(token, &list);
            env.outbox.push(Effect::ProcessWithdrawalQueue { borrower });
            env.ledger.remove_active_loan_id(borrower);
            env.ledger.remove_vouches(borrower);
            env.outbox.push(
                Effect::Publish { event: Event::LoanRepaid { borrower, amount: loan.amount } },
            );
        }
        env.ledger.set_loan(loan.id, loan);
        assert(env@ =~= settle_post(old(env)@, borrower, payment));
    }

    /// `repay`, or `None` where an amount does not fit.
    pub fn try_repay(env: &mut Env, borrower: Address, payment: i128) -> (r: Option<
        Result<(), ContractError>,
    >)
        ensures
            r is Some <==> repay_defined(old(env)@, borrower, payment),
            r is None ==> final(env)@ == old(env)@,
            r matches Some(answer) ==> {
                &&& answer == repay_result(old(env)@, borrower, payment)
                &&& final(env)@ == repay_post(old(env)@, borrower, payment)
            },
    {
        if let Err(e) = env.not_paused {
            env.outbox.push(Effect::RequireAuth { who: borrower });
            return Some(Err(e));
        }
        let assessment = match Self::assess_payment(env, borrower, payment) {
            Some(assessment) => assessment,
            None => return None,
        };
        env.outbox.push(Effect::RequireAuth { who: borrower });
        match assessment {
            Ok(settlement) => {
                Self::carry_out(env, borrower, payment, settlement);
                Some(Ok(()))
            },
            Err(e) => Some(Err(e)),
        }
    }

    /// Takes a payment of `borrower` on their open loan. The payment that brings
    /// the loan to what is owed closes it, and the vouchers get their stakes back
    /// with their parts of the yield.
    pub fn repay(env: &mut Env, borrower: Address, payment: i128) -> (r: Result<(), ContractError>)
        requires
            repay_defined(old(env)@, borrower, payment),
        ensures
            r == repay_result(old(env)@, borrower, payment),
            final(env)@ == repay_post(old(env)@, borrower, payment),
    {
        Self::try_repay(env, borrower, payment).unwrap()
    }

    /// Decides whether a batch is taken up at all.
    pub fn check_batch(env: &Env, borrowers: &Vec<Address>, payments: &Vec<i128>) -> (r: Result<
        (),
        ContractError,
    >)
        ensures
            r == batch_check(env@, borrowers@, payments@),
    {
        if let Err(e) = env.not_paused {
            return Err(e);
        }
        if borrowers.len() != payments.len() || borrowers.len() == 0 {
            return Err(ContractError::InvalidAmount);
        }
        Ok(())
    }

    /// Processes one entry of a batch, or gives `None` where an amount does not
    /// fit.
    pub fn try_batch_entry(env: &mut Env, borrower: Address, payment: i128) -> (r: Option<
        Result<(), ContractError>,
    >)
        ensures
            r is Some <==> settle_defined(old(env)@, borrower, payment),
            r is None ==> final(env)@ == old(env)@,
            r matches Some(answer) ==> {
                &&& answer == settle_result(old(env)@, borrower, payment)
                &&& final(env)@ == batch_entry_post(old(env)@, borrower, payment)
            },
    {
        let assessment = match Self::assess_payment(env, borrower, payment) {
            Some(assessment) => assessment,
            None => return None,
        };
        env.outbox.push(Effect::RequireAuth { who: borrower });
        match assessment {
            Ok(settlement) => {
                Self::carry_out(env, borrower, payment, settlement);
                env.outbox.push(
                    Effect::Publish { event: Event::BatchPayment { borrower, payment } },
                );
                Some(Ok(()))
            },
            Err(e) => Some(Err(e)),
        }
    }

    /// `batch_repay`, or `None` where an amount of an entry does not fit; the
    /// entries before that one are then processed.
    pub fn try_batch_repay(env: &mut Env, borrowers: &Vec<Address>, payments: &Vec<i128>) -> (r:
        Option<Result<(), ContractError>>)
        ensures
            r is Some <==> batch_repay_defined(old(env)@, borrowers@, payments@),
            r is None ==> exists|n: nat| {
                &&& n < borrowers@.len()
                &&& !(#[trigger] batch_entry_defined(old(env)@, borrowers@, payments@, n))
                &&& final(env)@ == batch_run(old(env)@, borrowers@, payments@, n).1
                &&& forall|m: nat|
                    m < n ==> #[trigger] batch_entry_defined(old(env)@, borrowers@, payments@, m)
            },
            r matches Some(answer) ==> {
                &&& answer == batch_repay_result(old(env)@, borrowers@, payments@)
                &&& final(env)@ == batch_repay_post(old(env)@, borrowers@, payments@)
            },
    {
        if let Err(e) = Self::check_batch(env, borrowers, payments) {
            return Some(Err(e));
        }
        for i in 0..borrowers.len()
            invariant
                batch_check(old(env)@, borrowers@, payments@) is Ok,
                forall|n: nat|
                    n < i ==> #[trigger] batch_entry_defined(
                        old(env)@,
                        borrowers@,
                        payments@,
                        n,
                    ),
                batch_run(old(env)@, borrowers@, payments@, i as nat) == (
                    Ok::<(), ContractError>(()),
                    env@,
                ),
        {
            let ghost defined = batch_entry_defined(old(env)@, borrowers@, payments@, i as nat);
            let answer = match Self::try_batch_entry(env, borrowers[i], payments[i]) {
                Some(answer) => answer,
                None => {
                    assert(!defined);
                    return None;
                },
            };
            assert(batch_run(old(env)@, borrowers@, payments@, (i + 1) as nat) == (answer, env@));
            if let Err(e) = answer {
                proof {
                    assert forall|n: nat| n < borrowers@.len() implies #[trigger] batch_entry_defined(
                        old(env)@,
                        borrowers@,
                        payments@,
                        n,
                    ) by {
                        if n > i {
                            lemma_batch_stops(
                                old(env)@,
                                borrowers@,
                                payments@,
                                (i + 1) as nat,
                                n,
                            );
                        }
                    }
                    lemma_batch_stops(
                        old(env)@,
                        borrowers@,
                        payments@,
                        (i + 1) as nat,
                        borrowers@.len(),
                    );
                }
                return Some(Err(e));
            }
        }
        Some(Ok(()))
    }

    /// Takes one payment for each borrower, in order. The batch is not atomic: the
    /// first entry that is refused ends it, and the entries before it stand.
    pub fn batch_repay(env: &mut Env, borrowers: Vec<Address>, payments: Vec<i128>) -> (r: Result<
        (),
        ContractError,
    >)
        requires
            batch_repay_defined(old(env)@, borrowers@, payments@),
        ensures
            r == batch_repay_result(old(env)@, borrowers@, payments@),
            final(env)@ == batch_repay_post(old(env)@, borrowers@, payments@),
    {
        Self::try_batch_repay(env, &borrowers, &payments).unwrap()
    }

    /// Decides on a partial default and works out what it comes to.
    fn assess_default(
        env: &Env,
        approval: Result<(), ContractError>,
        borrower: Address,
    ) -> (r: Option<Result<Slash, ContractError>>)
        ensures
            r is Some <==> mark_partial_default_defined(env@, approval, borrower),
            r matches Some(Err(e)) ==> mark_partial_default_result(env@, approval, borrower)
                == Err::<(), ContractError>(e),
            r matches Some(Ok(slash)) ==> slash.marks(env@, approval, borrower),
    {
        if let Err(e) = env.not_paused {
            return Some(Err(e));
        }
        if let Err(e) = approval {
            return Some(Err(e));
        }
        let config = match env.ledger.config() {
            Some(config) => config,
            None => return None,
        };
        if config.partial_default_threshold_bps == 0 {
            return Some(Err(ContractError::InvalidStateTransition));
        }
        let mut loan = match env.ledger.active_loan(borrower) {
            Some(loan) => loan.clone(),
            None => return Some(Err(ContractError::NoActiveLoan)),
        };
        if loan.status != LoanStatus::Active {
            return Some(Err(ContractError::InvalidStateTransition));
        }
        if env.timestamp <= loan.deadline || loan.amount_repaid <= 0 {
            return Some(Err(ContractError::InvalidStateTransition));
        }
        let total_owed = match loan.amount.checked_add(loan.total_yield) {
            Some(total_owed) => total_owed,
            None => return None,
        };
        let repaid: i128 = if total_owed > 0 {
            match scale(loan.amount_repaid, BPS, total_owed) {
                Some(repaid) => repaid,
                None => return None,
            }
        } else {
            0
        };
        if repaid >= config.partial_default_threshold_bps as i128 {
            return Some(Err(ContractError::InvalidStateTransition));
        }
        loan.status = LoanStatus::PartialDefault;
        let unpaid = match BPS.checked_sub(repaid) {
            Some(unpaid) => unpaid,
            None => return None,
        };
        let rate = match scale(config.slash_bps, unpaid, BPS) {
            Some(rate) => rate,
            None => return None,
        };
        if let Err(e) = env.require_allowed_token(loan.token_address) {
            return Some(Err(e));
        }
        let vouches = env.stakes_behind(borrower);
        let (total_slashed, remainders) = match work_out_slash(&vouches, loan.token_address, rate) {
            Some(slash) => slash,
            None => return None,
        };
        let counted: u32 = match env.ledger.partial_default_count(borrower) {
            Some(count) => count,
            None => 0,
        };
        match counted.checked_add(1) {
            Some(count) => Some(Ok(Slash { loan, total_slashed, remainders, count })),
            None => None,
        }
    }

    /// `mark_partial_default`, or `None` where an amount does not fit.
    pub fn try_mark_partial_default(
        env: &mut Env,
        approval: Result<(), ContractError>,
        borrower: Address,
    ) -> (r: Option<Result<(), ContractError>>)
        ensures
            r is Some <==> mark_partial_default_defined(old(env)@, approval, borrower),
            r is None ==> final(env)@ == old(env)@,
            r matches Some(answer) ==> {
                &&& answer == mark_partial_default_result(old(env)@, approval, borrower)
                &&& final(env)@ == mark_partial_default_post(old(env)@, approval, borrower)
            },
    {
        let Slash { loan, total_slashed, remainders, count } = match Self::assess_default(
            env,
            approval,
            borrower,
        ) {
            Some(Ok(slash)) => slash,
            Some(Err(e)) => return Some(Err(e)),
            None => return None,
        };
        env.send_all(loan.token_address, &remainders);
        let record = SlashRecord {
            loan_id: loan.id,
            borrower,
            total_slashed,
            slash_timestamp: env.timestamp,
            forgiven: false,
            forgiveness_reason: String::new(),
            forgiven_at: 0,
        };
        env.ledger.set_slash_record(loan.id, record);
        env.ledger.set_partial_default_count(borrower, count);
        env.ledger.remove_active_loan_id(borrower);
        env.ledger.remove_vouches(borrower);
        env.ledger.set_loan(loan.id, loan);
        env.outbox.push(
            Effect::Publish { event: Event::PartialDefault { borrower, total_slashed } },
        );
        assert(env@ =~= mark_partial_default_post(old(env)@, approval, borrower));
        Some(Ok(()))
    }

    /// Marks the open loan of `borrower` as a partial default, with the approval
    /// of the administrators, once its deadline has passed, where some of it has been
    /// repaid but less than the terms ask for. Up to and at the instant of the
    /// deadline, and where nothing has been repaid, it is an invalid transition; so it
    /// is where the terms have partial defaults disabled. The stakes behind it are slashed in proportion to what is unpaid, and
    /// what is left of them goes back to the vouchers.
    pub fn mark_partial_default(
        env: &mut Env,
        approval: Result<(), ContractError>,
        borrower: Address,
    ) -> (r: Result<(), ContractError>)
        requires
            mark_partial_default_defined(old(env)@, approval, borrower),
        ensures
            r == mark_partial_default_result(old(env)@, approval, borrower),
            final(env)@ == mark_partial_default_post(old(env)@, approval, borrower),
    {
        Self::try_mark_partial_default(env, approval, borrower).unwrap()
    }

    /// Forgives a default of `borrower`, with the approval of the administrators,
    /// and keeps the reason. What was slashed is not given back.
    pub fn forgive_default(
        env: &mut Env,
        approval: Result<(), ContractError>,
        borrower: Address,
        loan_id: u64,
        forgiveness_reason: String,
    ) -> (r: Result<(), ContractError>)
        ensures
            r == forgive_default_result(old(env)@, approval, borrower, loan_id),
            final(env)@ == forgive_default_post(
                old(env)@,
                approval,
                borrower,
                loan_id,
                forgiveness_reason@,
            ),
    {
        if let Err(e) = env.not_paused {
            return Err(e);
        }
        if let Err(e) = approval {
            return Err(e);
        }
        let mut loan = match env.ledger.loan(loan_id) {
            Some(loan) => loan.clone(),
            None => return Err(ContractError::NoActiveLoan),
        };
        if loan.borrower != borrower {
            return Err(ContractError::UnauthorizedCaller);
        }
        if loan.status != LoanStatus::Defaulted && loan.status != LoanStatus::PartialDefault {
            return Err(ContractError::InvalidStateTransition);
        }
        loan.status = LoanStatus::ForgivenDefault;
        env.ledger.set_loan(loan_id, loan);
        let mut record = match env.ledger.slash_record(loan_id) {
            Some(record) => record.clone(),
            None => SlashRecord {
                loan_id,
                borrower,
                total_slashed: 0,
                slash_timestamp: 0,
                forgiven: false,
                forgiveness_reason: String::new(),
                forgiven_at: 0,
            },
        };
        record.forgiven = true;
        record.forgiveness_reason = forgiveness_reason.clone();
        record.forgiven_at = env.timestamp;
        assert(record@ =~= forgiven_record(old(env)@, borrower, loan_id, forgiveness_reason@));
        env.ledger.set_slash_record(loan_id, record);
        let count: u32 = match env.ledger.default_count(borrower) {
            Some(count) => count,
            None => 0,
        };
        if count > 0 {
            env.ledger.set_default_count(borrower, count - 1);
        }
        env.outbox.push(
            Effect::Publish {
                event: Event::DefaultForgiven { borrower, loan_id, reason: forgiveness_reason },
            },
        );
        Ok(())
    }

    /// The slash record of a loan, with its forgiveness if there was one.
    pub fn get_slash_record(env: &Env, loan_id: u64) -> (r: Option<SlashRecord>)
        ensures
            r is Some <==> env@.ledger.slash_record(loan_id) is Some,
            r matches Some(record) ==> env@.ledger.slash_record(loan_id) == Some(record@),
    {
        match env.ledger.slash_record(loan_id) {
            Some(record) => Some(record.clone()),
            None => None,
        }
    }

    /// How many loans of `borrower` were marked as partial defaults.
    pub fn get_partial_default_count(env: &Env, borrower: Address) -> (r: u32)
        ensures
            r == env@.ledger.partial_default_count(borrower),
    {
        match env.ledger.partial_default_count(borrower) {
            Some(count) => count,
            None => 0,
        }
    }

    /// The loan that `borrower` has open.
    pub fn get_loan(env: &Env, borrower: Address) -> (r: Option<LoanRecord>)
        ensures
            r is Some <==> env@.ledger.active_loan(borrower) is Some,
            r matches Some(loan) ==> env@.ledger.active_loan(borrower) == Some(loan@),
    {
        match env.ledger.active_loan(borrower) {
            Some(loan) => Some(loan.clone()),
            None => None,
        }
    }

    /// The stakes behind `borrower`.
    pub fn get_vouches(env: &Env, borrower: Address) -> (r: Vec<VouchRecord>)
        ensures
            r@ == env@.ledger.vouches_of(borrower),
    {
        env.stakes_behind(borrower)
    }

    /// Whether `voucher` has a stake behind `borrower`.
    pub fn vouch_exists(env: &Env, voucher: Address, borrower: Address) -> (r: bool)
        ensures
            r == exists|i: int|
                0 <= i < env@.ledger.vouches_of(borrower).len() && (
                #[trigger] env@.ledger.vouches_of(borrower)[i]).voucher == voucher,
    {
        let vouches = env.stakes_behind(borrower);
        for i in 0..vouches.len()
            invariant
                vouches@ == env@.ledger.vouches_of(borrower),
                forall|j: int| 0 <= j < i ==> (#[trigger] vouches@[j]).voucher != voucher,
        {
            if vouches[i].voucher == voucher {
                return true;
            }
        }
        false
    }
}

/// Nothing is processed after an entry that is refused.
pub proof fn lemma_batch_stops(
    env: EnvView,
    borrowers: Seq<Address>,
    payments: Seq<i128>,
    n: nat,
    m: nat,
)
    requires
        n <= m,
        batch_run(env, borrowers, payments, n).0 is Err,
    ensures
        batch_run(env, borrowers, payments, m) == batch_run(env, borrowers, payments, n),
    decreases m - n,
{
    if n < m {
        lemma_batch_stops(env, borrowers, payments, n, (m - 1) as nat);
    }
}

} // verus!
