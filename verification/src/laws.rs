//! What holds of the contract as a whole.

use vstd::prelude::*;

use crate::contract::lemma_batch_stops;
use crate::env::{EffectView, EnvView, EventView};
use crate::ledger::LedgerView;
use crate::money::{
    fits, lemma_quotient_bounds, payouts, payouts_fit, quotient, remainders, slash_of, slash_total,
    slashes_fit, stake_total, stake_totals_fit, yield_share, BPS,
};
use crate::rules::{
    batch_check, batch_entry_defined, batch_entry_post, batch_repay_defined, batch_repay_post,
    batch_repay_result, batch_run, forgive_default_post, forgive_default_result, initialize_post,
    initialize_result, mark_partial_default_defined, mark_partial_default_post,
    mark_partial_default_result, new_loan, paid_loan, repaid_bps, repay_defined, repay_post,
    repay_result, request_loan_defined, request_loan_post, request_loan_result, settle_defined,
    settle_post, settle_result, slash_rate, transfers,
};
use crate::types::{Address, ContractError, Defaults, LoanStatus, LoanView, VouchRecord};

verus! {

// --- What every call keeps -------------------------------------------------

/// A loan record that the calls can have left behind: it never holds more than
/// was owed, and it says repaid only where it holds all of it.
pub open spec fn sound_loan(loan: LoanView) -> bool {
    &&& loan.amount_repaid == 0 || 0 < loan.amount_repaid <= loan.owed()
    &&& loan.status == LoanStatus::Repaid ==> loan.amount_repaid == loan.owed()
}

/// Stored entries that agree with each other.
pub open spec fn consistent(ledger: LedgerView) -> bool {
    // A loan is stored under its own number, and the numbers have all been given out.
    &&& forall|id: u64| #[trigger]
        ledger.loans.contains_key(id) ==> {
            &&& ledger.loans[id].id == id
            &&& id <= ledger.loans_numbered()
            &&& sound_loan(ledger.loans[id])
        }
    // An open loan is there, is the borrower's own, and is running.
    &&& forall|borrower: Address| #[trigger]
        ledger.active_loans.contains_key(borrower) ==> {
            let id = ledger.active_loans[borrower];
            &&& ledger.loans.contains_key(id)
            &&& ledger.loans[id].borrower == borrower
            &&& ledger.loans[id].status == LoanStatus::Active
        }
    // A default that was slashed or forgiven has its record.
    &&& forall|id: u64| #[trigger]
        ledger.loans.contains_key(id) ==> {
            &&& ledger.loans[id].status == LoanStatus::PartialDefault ==> {
                &&& ledger.slash_record(id) matches Some(record)
                &&& record.loan_id == id
                &&& record.borrower == ledger.loans[id].borrower
                &&& !record.forgiven
            }
            &&& ledger.loans[id].status == LoanStatus::ForgivenDefault ==> {
                &&& ledger.slash_record(id) matches Some(record)
                &&& record.forgiven
            }
        }
}

/// Nothing stored is consistent.
pub proof fn empty_is_consistent()
    ensures
        consistent(LedgerView::empty()),
{
}

/// Setting the contract up keeps the stored entries consistent.
pub proof fn initialize_keeps_consistent(
    env: EnvView,
    deployer: Address,
    admins: Seq<Address>,
    admin_threshold: u32,
    token: Address,
    defaults: Defaults,
)
    requires
        consistent(env.ledger),
    ensures
        consistent(
            initialize_post(env, deployer, admins, admin_threshold, token, defaults).ledger,
        ),
{
}

/// A request for a loan keeps the stored entries consistent.
pub proof fn request_loan_keeps_consistent(
    env: EnvView,
    borrower: Address,
    amount: i128,
    threshold: i128,
    loan_purpose: Seq<char>,
    token: Address,
)
    requires
        consistent(env.ledger),
        request_loan_defined(env, borrower, amount, threshold, token),
    ensures
        consistent(
            request_loan_post(env, borrower, amount, threshold, loan_purpose, token).ledger,
        ),
{
}

/// A payment keeps the stored entries consistent.
proof fn settle_keeps_consistent(env: EnvView, borrower: Address, payment: i128)
    requires
        consistent(env.ledger),
        settle_defined(env, borrower, payment),
    ensures
        consistent(settle_post(env, borrower, payment).ledger),
{
    if settle_result(env, borrower, payment) is Ok {
        let loan = env.ledger.active_loan(borrower)->0;
        let paid = paid_loan(loan, payment, env.timestamp);
        assert(sound_loan(paid));
    }
}

/// A repayment keeps the stored entries consistent.
pub proof fn repay_keeps_consistent(env: EnvView, borrower: Address, payment: i128)
    requires
        consistent(env.ledger),
        repay_defined(env, borrower, payment),
    ensures
        consistent(repay_post(env, borrower, payment).ledger),
{
    let asked = env.emit(EffectView::RequireAuth { who: borrower });
    if env.not_paused is Ok {
        settle_keeps_consistent(asked, borrower, payment);
    }
}

/// A partial default keeps the stored entries consistent.
pub proof fn mark_partial_default_keeps_consistent(
    env: EnvView,
    approval: Result<(), ContractError>,
    borrower: Address,
)
    requires
        consistent(env.ledger),
        mark_partial_default_defined(env, approval, borrower),
    ensures
        consistent(mark_partial_default_post(env, approval, borrower).ledger),
{
}

/// Forgiving a default keeps the stored entries consistent.
pub proof fn forgive_default_keeps_consistent(
    env: EnvView,
    approval: Result<(), ContractError>,
    borrower: Address,
    loan_id: u64,
    reason: Seq<char>,
)
    requires
        consistent(env.ledger),
    ensures
        consistent(forgive_default_post(env, approval, borrower, loan_id, reason).ledger),
{
}

/// A batch of repayments keeps the stored entries consistent, wherever it ends.
pub proof fn batch_repay_keeps_consistent(
    env: EnvView,
    borrowers: Seq<Address>,
    payments: Seq<i128>,
)
    requires
        consistent(env.ledger),
        batch_repay_defined(env, borrowers, payments),
    ensures
        consistent(batch_repay_post(env, borrowers, payments).ledger),
{
    if batch_check(env, borrowers, payments) is Ok {
        batch_run_keeps_consistent(env, borrowers, payments, borrowers.len());
    }
}

proof fn batch_run_keeps_consistent(
    env: EnvView,
    borrowers: Seq<Address>,
    payments: Seq<i128>,
    n: nat,
)
    requires
        consistent(env.ledger),
        batch_check(env, borrowers, payments) is Ok,
        batch_repay_defined(env, borrowers, payments),
        n <= borrowers.len(),
    ensures
        consistent(batch_run(env, borrowers, payments, n).1.ledger),
    decreases n,
{
    if n > 0 {
        let k = (n - 1) as nat;
        batch_run_keeps_consistent(env, borrowers, payments, k);
        let (result, before) = batch_run(env, borrowers, payments, k);
        if result is Ok {
            assert(batch_entry_defined(env, borrowers, payments, k));
            let asked = before.emit(EffectView::RequireAuth { who: borrowers[k as int] });
            settle_keeps_consistent(asked, borrowers[k as int], payments[k as int]);
        }
    }
}

/// A call that is refused leaves what is stored as it was.
pub proof fn refusals_store_nothing(
    env: EnvView,
    approval: Result<(), ContractError>,
    who: Address,
    admins: Seq<Address>,
    admin_threshold: u32,
    defaults: Defaults,
    amount: i128,
    threshold: i128,
    loan_id: u64,
    text: Seq<char>,
    token: Address,
)
    ensures
        initialize_result(env, admins, admin_threshold) is Err ==> initialize_post(
            env,
            who,
            admins,
            admin_threshold,
            token,
            defaults,
        ).ledger == env.ledger,
        request_loan_result(env, who, amount, threshold, token) is Err ==> request_loan_post(
            env,
            who,
            amount,
            threshold,
            text,
            token,
        ).ledger == env.ledger,
        repay_result(env, who, amount) is Err ==> repay_post(env, who, amount).ledger
            == env.ledger,
        mark_partial_default_result(env, approval, who) is Err ==> mark_partial_default_post(
            env,
            approval,
            who,
        ).ledger == env.ledger,
        forgive_default_result(env, approval, who, loan_id) is Err ==> forgive_default_post(
            env,
            approval,
            who,
            loan_id,
            text,
        ).ledger == env.ledger,
{
}

/// While the contract is paused, every call on loans is answered with the host's
/// refusal and stores nothing.
pub proof fn pause_stops_every_call_on_loans(
    env: EnvView,
    approval: Result<(), ContractError>,
    who: Address,
    amount: i128,
    threshold: i128,
    loan_id: u64,
    text: Seq<char>,
    token: Address,
    borrowers: Seq<Address>,
    payments: Seq<i128>,
)
    requires
        env.not_paused is Err,
    ensures
        request_loan_result(env, who, amount, threshold, token) == env.not_paused,
        request_loan_post(env, who, amount, threshold, text, token).ledger == env.ledger,
        repay_result(env, who, amount) == env.not_paused,
        repay_post(env, who, amount).ledger == env.ledger,
        batch_repay_result(env, borrowers, payments) == env.not_paused,
        batch_repay_post(env, borrowers, payments) == env,
        mark_partial_default_result(env, approval, who) == env.not_paused,
        mark_partial_default_post(env, approval, who) == env,
        forgive_default_result(env, approval, who, loan_id) == env.not_paused,
        forgive_default_post(env, approval, who, loan_id, text) == env,
{
}

/// The entries of `borrower`: the open loan, the stakes, the counts of defaults.
pub open spec fn same_for(a: LedgerView, b: LedgerView, borrower: Address) -> bool {
    &&& a.active_loan(borrower) == b.active_loan(borrower)
    &&& a.vouches_of(borrower) == b.vouches_of(borrower)
    &&& a.partial_default_count(borrower) == b.partial_default_count(borrower)
    &&& a.default_count(borrower) == b.default_count(borrower)
}

/// A call for one borrower leaves the entries of every other borrower as they
/// were.
pub proof fn other_borrowers_are_untouched(
    env: EnvView,
    approval: Result<(), ContractError>,
    borrower: Address,
    other: Address,
    amount: i128,
    threshold: i128,
    loan_id: u64,
    text: Seq<char>,
    token: Address,
)
    requires
        consistent(env.ledger),
        other != borrower,
    ensures
        request_loan_defined(env, borrower, amount, threshold, token) ==> same_for(
            env.ledger,
            request_loan_post(env, borrower, amount, threshold, text, token).ledger,
            other,
        ),
        same_for(env.ledger, repay_post(env, borrower, amount).ledger, other),
        same_for(env.ledger, mark_partial_default_post(env, approval, borrower).ledger, other),
        same_for(
            env.ledger,
            forgive_default_post(env, approval, borrower, loan_id, text).ledger,
            other,
        ),
{
}

/// The terms and the deployer, once set, are not changed by any call.
pub proof fn terms_are_fixed(
    env: EnvView,
    approval: Result<(), ContractError>,
    who: Address,
    admins: Seq<Address>,
    admin_threshold: u32,
    defaults: Defaults,
    amount: i128,
    threshold: i128,
    loan_id: u64,
    text: Seq<char>,
    token: Address,
)
    ensures
        ({
            let kept = |after: EnvView|
                after.ledger.config == env.ledger.config && after.ledger.deployer
                    == env.ledger.deployer;
            &&& env.ledger.config is Some ==> kept(
                initialize_post(env, who, admins, admin_threshold, token, defaults),
            )
            &&& kept(request_loan_post(env, who, amount, threshold, text, token))
            &&& kept(repay_post(env, who, amount))
            &&& kept(batch_entry_post(env, who, amount))
            &&& kept(mark_partial_default_post(env, approval, who))
            &&& kept(forgive_default_post(env, approval, who, loan_id, text))
        }),
{
}

/// How the status of a loan can move in one call.
pub open spec fn status_moves(from: LoanStatus, to: LoanStatus) -> bool {
    ||| from == to
    ||| from == LoanStatus::Active && (to == LoanStatus::Repaid || to == LoanStatus::PartialDefault)
    ||| (from == LoanStatus::Defaulted || from == LoanStatus::PartialDefault) && to
        == LoanStatus::ForgivenDefault
}

/// Whether every loan of `a` is still there in `b`, on the same terms, with no less
/// repaid, and with a status that it can have moved to. One that was not running has
/// changed in its status at most.
pub open spec fn loans_carry_on(a: LedgerView, b: LedgerView) -> bool {
    &&& a.loans_numbered() <= b.loans_numbered()
    &&& forall|id: u64| #[trigger]
        a.loans.contains_key(id) ==> {
            let (old_loan, loan) = (a.loans[id], b.loans[id]);
            &&& b.loans.contains_key(id)
            &&& loan == LoanView {
                amount_repaid: loan.amount_repaid,
                status: loan.status,
                repayment_timestamp: loan.repayment_timestamp,
                ..old_loan
            }
            &&& old_loan.amount_repaid <= loan.amount_repaid
            &&& old_loan.status != LoanStatus::Active ==> loan == LoanView {
                status: loan.status,
                ..old_loan
            }
            &&& status_moves(old_loan.status, loan.status)
        }
}

/// Whether the loans of `a` carry on in `b`, changed by payments alone.
pub open spec fn loans_are_paid(a: LedgerView, b: LedgerView) -> bool {
    &&& loans_carry_on(a, b)
    &&& forall|id: u64| #[trigger]
        a.loans.contains_key(id) ==> {
            ||| b.loans[id].status == a.loans[id].status
            ||| a.loans[id].status == LoanStatus::Active && b.loans[id].status
                == LoanStatus::Repaid
        }
}

/// No call drops a loan, changes its terms or takes back a payment; a loan runs until
/// it is repaid or defaults, and only a default can be forgiven; a payment makes no
/// default and forgives none. (A batch is a run of its entries; see
/// `batches_obey_the_same_laws`.)
pub proof fn loans_are_never_rewritten(
    env: EnvView,
    approval: Result<(), ContractError>,
    who: Address,
    admins: Seq<Address>,
    admin_threshold: u32,
    defaults: Defaults,
    amount: i128,
    threshold: i128,
    loan_id: u64,
    text: Seq<char>,
    token: Address,
)
    requires
        consistent(env.ledger),
    ensures
        loans_carry_on(
            env.ledger,
            initialize_post(env, who, admins, admin_threshold, token, defaults).ledger,
        ),
        request_loan_defined(env, who, amount, threshold, token) ==> loans_carry_on(
            env.ledger,
            request_loan_post(env, who, amount, threshold, text, token).ledger,
        ),
        repay_defined(env, who, amount) ==> loans_are_paid(
            env.ledger,
            repay_post(env, who, amount).ledger,
        ),
        settle_defined(env, who, amount) ==> loans_are_paid(
            env.ledger,
            batch_entry_post(env, who, amount).ledger,
        ),
        loans_carry_on(env.ledger, mark_partial_default_post(env, approval, who).ledger),
        loans_carry_on(
            env.ledger,
            forgive_default_post(env, approval, who, loan_id, text).ledger,
        ),
{
    assert(loans_carry_on(env.ledger, env.ledger));
}

/// Whether every transfer out of an account other than the contract's own comes after
/// that account's authorisation.
pub open spec fn authorised(effects: Seq<EffectView>, contract: Address) -> bool {
    forall|i: int| 0 <= i < effects.len() ==> #[trigger] covered(effects, contract, i)
}

/// Whether the action at `i` takes nothing that was not authorised before it.
pub open spec fn covered(effects: Seq<EffectView>, contract: Address, i: int) -> bool {
    match effects[i] {
        EffectView::Transfer { from, .. } => from == contract || effects.take(i).contains(
            EffectView::RequireAuth { who: from },
        ),
        _ => true,
    }
}

proof fn lemma_authorised_push(effects: Seq<EffectView>, contract: Address, effect: EffectView)
    requires
        authorised(effects, contract),
        effect matches EffectView::Transfer { from, .. } ==> from == contract || effects.contains(
            EffectView::RequireAuth { who: from },
        ),
    ensures
        authorised(effects.push(effect), contract),
{
    let more = effects.push(effect);
    assert forall|i: int| 0 <= i < more.len() implies #[trigger] covered(more, contract, i) by {
        if i < effects.len() {
            assert(covered(effects, contract, i));
            assert(more.take(i) =~= effects.take(i));
        } else {
            assert(more.take(i) =~= effects);
        }
    }
}

proof fn lemma_authorised_transfers(
    effects: Seq<EffectView>,
    contract: Address,
    token: Address,
    payments: Seq<(Address, i128)>,
)
    requires
        authorised(effects, contract),
    ensures
        authorised(effects + transfers(token, contract, payments), contract),
{
    let more = effects + transfers(token, contract, payments);
    assert forall|i: int| 0 <= i < more.len() implies #[trigger] covered(more, contract, i) by {
        if i < effects.len() {
            assert(covered(effects, contract, i));
            assert(more.take(i) =~= effects.take(i));
        }
    }
}

proof fn settle_keeps_authorised(env: EnvView, borrower: Address, payment: i128)
    requires
        authorised(env.outbox, env.contract),
        env.outbox.contains(EffectView::RequireAuth { who: borrower }),
    ensures
        authorised(settle_post(env, borrower, payment).outbox, env.contract),
{
    if settle_result(env, borrower, payment) is Ok {
        let loan = env.ledger.active_loan(borrower)->0;
        let token = loan.token_address;
        let payment_in = EffectView::Transfer {
            token,
            from: borrower,
            to: env.contract,
            amount: payment,
        };
        lemma_authorised_push(env.outbox, env.contract, payment_in);
        if payment == loan.outstanding() {
            let vouches = env.ledger.vouches_of(borrower);
            let list = payouts(vouches, token, loan.total_yield, stake_total(vouches, token));
            let received = env.outbox.push(payment_in);
            lemma_authorised_transfers(received, env.contract, token, list);
            let paid = received + transfers(token, env.contract, list);
            let queue = EffectView::ProcessWithdrawalQueue { borrower };
            lemma_authorised_push(paid, env.contract, queue);
            lemma_authorised_push(
                paid.push(queue),
                env.contract,
                settle_post(env, borrower, payment).outbox.last(),
            );
        }
    }
}

/// No call takes money out of an account that has not authorised it first; only the
/// contract's own account pays without being asked. (A batch is a run of its entries;
/// see `batches_obey_the_same_laws`.)
pub proof fn money_is_taken_with_authorisation_only(
    env: EnvView,
    approval: Result<(), ContractError>,
    who: Address,
    admins: Seq<Address>,
    admin_threshold: u32,
    defaults: Defaults,
    amount: i128,
    threshold: i128,
    loan_id: u64,
    text: Seq<char>,
    token: Address,
)
    requires
        authorised(env.outbox, env.contract),
    ensures
        authorised(
            initialize_post(env, who, admins, admin_threshold, token, defaults).outbox,
            env.contract,
        ),
        authorised(
            request_loan_post(env, who, amount, threshold, text, token).outbox,
            env.contract,
        ),
        authorised(repay_post(env, who, amount).outbox, env.contract),
        authorised(batch_entry_post(env, who, amount).outbox, env.contract),
        authorised(mark_partial_default_post(env, approval, who).outbox, env.contract),
        authorised(forgive_default_post(env, approval, who, loan_id, text).outbox, env.contract),
{
    let ask = EffectView::RequireAuth { who };
    let asked = env.emit(ask);
    lemma_authorised_push(env.outbox, env.contract, ask);
    assert(asked.outbox.last() == ask);
    assert(asked.outbox.contains(ask));

    let disbursed = EffectView::Transfer { token, from: env.contract, to: who, amount };
    lemma_authorised_push(asked.outbox, env.contract, disbursed);
    lemma_authorised_push(
        asked.outbox.push(disbursed),
        env.contract,
        EffectView::Publish { event: EventView::LoanCreated { borrower: who, amount } },
    );

    settle_keeps_authorised(asked, who, amount);
    lemma_authorised_push(
        settle_post(asked, who, amount).outbox,
        env.contract,
        EffectView::Publish { event: EventView::BatchPayment { borrower: who, payment: amount } },
    );

    if mark_partial_default_result(env, approval, who) is Ok {
        let loan = env.ledger.active_loan(who)->0;
        let rate = slash_rate(env.ledger.config->0.slash_bps, loan);
        let list = remainders(env.ledger.vouches_of(who), loan.token_address, rate);
        lemma_authorised_transfers(env.outbox, env.contract, loan.token_address, list);
        lemma_authorised_push(
            env.outbox + transfers(loan.token_address, env.contract, list),
            env.contract,
            mark_partial_default_post(env, approval, who).outbox.last(),
        );
    }
    lemma_authorised_push(
        env.outbox,
        env.contract,
        EffectView::Publish {
            event: EventView::DefaultForgiven { borrower: who, loan_id, reason: text },
        },
    );
}

// --- Initialisation --------------------------------------------------------

/// A contract is set up once: whoever tries again, with whatever terms, is told
/// that it has been done.
pub proof fn initialize_happens_once(
    env: EnvView,
    deployer: Address,
    admins: Seq<Address>,
    admin_threshold: u32,
    token: Address,
    defaults: Defaults,
    later: EnvView,
    other_admins: Seq<Address>,
    other_threshold: u32,
)
    requires
        initialize_result(env, admins, admin_threshold) is Ok,
        later.ledger == initialize_post(
            env,
            deployer,
            admins,
            admin_threshold,
            token,
            defaults,
        ).ledger,
    ensures
        initialize_result(later, other_admins, other_threshold) == Err::<(), ContractError>(
            ContractError::AlreadyInitialized,
        ),
{
}

/// A contract that was just set up has partial defaults disabled: marking one is
/// an invalid transition, whoever the borrower is.
pub proof fn partial_defaults_start_disabled(
    env: EnvView,
    deployer: Address,
    admins: Seq<Address>,
    admin_threshold: u32,
    token: Address,
    defaults: Defaults,
    later: EnvView,
    borrower: Address,
)
    requires
        initialize_result(env, admins, admin_threshold) is Ok,
        later.ledger.config == initialize_post(
            env,
            deployer,
            admins,
            admin_threshold,
            token,
            defaults,
        ).ledger.config,
        later.not_paused is Ok,
    ensures
        mark_partial_default_result(later, Ok(()), borrower) == Err::<(), ContractError>(
            ContractError::InvalidStateTransition,
        ),
{
}

// --- The life of a loan ----------------------------------------------------

/// A loan that was granted is the borrower's open loan, nothing of it repaid;
/// every loan before it, and every stake, is as it was.
pub proof fn granted_loan_is_open(
    env: EnvView,
    borrower: Address,
    amount: i128,
    threshold: i128,
    loan_purpose: Seq<char>,
    token: Address,
)
    requires
        consistent(env.ledger),
        request_loan_defined(env, borrower, amount, threshold, token),
        request_loan_result(env, borrower, amount, threshold, token) is Ok,
    ensures
        ({
            let after = request_loan_post(env, borrower, amount, threshold, loan_purpose, token);
            &&& after.ledger.active_loan(borrower) == Some(
                new_loan(env, borrower, amount, loan_purpose, token),
            )
            &&& after.ledger.has_active_loan(borrower)
            &&& !env.ledger.loans.contains_key(after.ledger.loans_numbered())
            &&& forall|id: u64| #[trigger]
                env.ledger.loans.contains_key(id) ==> after.ledger.loans.contains_key(id)
                    && after.ledger.loans[id] == env.ledger.loans[id]
            &&& after.ledger.vouches == env.ledger.vouches
        }),
{
}

/// A borrower has one loan at a time: while one is running, another request is
/// refused, whatever it asks for, and stores nothing.
pub proof fn one_loan_at_a_time(
    env: EnvView,
    borrower: Address,
    amount: i128,
    threshold: i128,
    loan_purpose: Seq<char>,
    token: Address,
)
    requires
        env.ledger.has_active_loan(borrower),
        env.not_paused is Ok,
    ensures
        request_loan_result(env, borrower, amount, threshold, token) == Err::<(), ContractError>(
            ContractError::ActiveLoanExists,
        ),
        request_loan_post(env, borrower, amount, threshold, loan_purpose, token).ledger
            == env.ledger,
{
}

/// Whether every loan that is open in `a`, and is still running in `b`, is still its
/// borrower's open loan there.
pub open spec fn running_loans_stay_open(a: LedgerView, b: LedgerView) -> bool {
    forall|borrower: Address| #[trigger]
        a.active_loans.contains_key(borrower) ==> {
            let id = a.active_loans[borrower];
            &&& b.loans.contains_key(id)
            &&& b.loans[id].status == LoanStatus::Active ==> {
                &&& b.active_loans.contains_key(borrower)
                &&& b.active_loans[borrower] == id
                &&& b.has_active_loan(borrower)
            }
        }
}

/// Whatever call is made for whichever borrower, a loan that is open and goes on
/// running stays its borrower's open loan.
pub proof fn running_loan_stays_open(
    env: EnvView,
    approval: Result<(), ContractError>,
    who: Address,
    admins: Seq<Address>,
    admin_threshold: u32,
    defaults: Defaults,
    amount: i128,
    threshold: i128,
    loan_id: u64,
    text: Seq<char>,
    token: Address,
    borrowers: Seq<Address>,
    payments: Seq<i128>,
)
    requires
        consistent(env.ledger),
    ensures
        running_loans_stay_open(
            env.ledger,
            initialize_post(env, who, admins, admin_threshold, token, defaults).ledger,
        ),
        request_loan_defined(env, who, amount, threshold, token) ==> running_loans_stay_open(
            env.ledger,
            request_loan_post(env, who, amount, threshold, text, token).ledger,
        ),
        repay_defined(env, who, amount) ==> running_loans_stay_open(
            env.ledger,
            repay_post(env, who, amount).ledger,
        ),
        batch_repay_defined(env, borrowers, payments) ==> running_loans_stay_open(
            env.ledger,
            batch_repay_post(env, borrowers, payments).ledger,
        ),
        running_loans_stay_open(
            env.ledger,
            mark_partial_default_post(env, approval, who).ledger,
        ),
        running_loans_stay_open(
            env.ledger,
            forgive_default_post(env, approval, who, loan_id, text).ledger,
        ),
{
    assert(running_loans_stay_open(env.ledger, env.ledger));
    if batch_check(env, borrowers, payments) is Ok && batch_repay_defined(
        env,
        borrowers,
        payments,
    ) {
        batch_run_leaves_running_loans_open(env, borrowers, payments, borrowers.len());
    }
}

proof fn batch_run_leaves_running_loans_open(
    env: EnvView,
    borrowers: Seq<Address>,
    payments: Seq<i128>,
    n: nat,
)
    requires
        consistent(env.ledger),
        batch_check(env, borrowers, payments) is Ok,
        batch_repay_defined(env, borrowers, payments),
        n <= borrowers.len(),
    ensures
        running_loans_stay_open(env.ledger, batch_run(env, borrowers, payments, n).1.ledger),
    decreases n,
{
    if n > 0 {
        let k = (n - 1) as nat;
        batch_run_leaves_running_loans_open(env, borrowers, payments, k);
        batch_run_keeps_consistent(env, borrowers, payments, k);
        batch_run_keeps_consistent(env, borrowers, payments, n);
        let (result, before) = batch_run(env, borrowers, payments, k);
        if result is Ok {
            assert(batch_entry_defined(env, borrowers, payments, k));
            let after = batch_entry_post(before, borrowers[k as int], payments[k as int]);
            assert forall|borrower: Address| #[trigger]
                env.ledger.active_loans.contains_key(borrower) implies ({
                let id = env.ledger.active_loans[borrower];
                &&& after.ledger.loans.contains_key(id)
                &&& after.ledger.loans[id].status == LoanStatus::Active ==> {
                    &&& after.ledger.active_loans.contains_key(borrower)
                    &&& after.ledger.active_loans[borrower] == id
                    &&& after.ledger.has_active_loan(borrower)
                }
            }) by {
                let id = env.ledger.active_loans[borrower];
                assert(before.ledger.loans.contains_key(id));
            }
        }
    }
}

/// Paying all that is outstanding closes the loan: it is kept as repaid, with all
/// that was owed, and the borrower has neither an open loan nor stakes behind
/// them. Any smaller payment leaves it open with that much less outstanding.
pub proof fn full_payment_closes_the_loan(env: EnvView, borrower: Address, payment: i128)
    requires
        consistent(env.ledger),
        repay_defined(env, borrower, payment),
        repay_result(env, borrower, payment) is Ok,
    ensures
        ({
            let loan = env.ledger.active_loan(borrower)->0;
            let after = repay_post(env, borrower, payment).ledger;
            &&& payment == loan.outstanding() ==> {
                &&& after.active_loan(borrower) is None
                &&& after.vouches_of(borrower).len() == 0
                &&& after.loans.contains_key(loan.id)
                &&& after.loans[loan.id].status == LoanStatus::Repaid
                &&& after.loans[loan.id].amount_repaid == loan.owed()
                &&& after.loans[loan.id].repayment_timestamp == Some(env.timestamp)
            }
            &&& payment != loan.outstanding() ==> {
                &&& after.active_loan(borrower) matches Some(open)
                &&& open.outstanding() == loan.outstanding() - payment
                &&& open.outstanding() > 0
                &&& open.status == LoanStatus::Active
                &&& after.vouches == env.ledger.vouches
            }
        }),
{
}

/// The transfers among the actions due, in order.
pub open spec fn moved(effects: Seq<EffectView>) -> Seq<EffectView>
    decreases effects.len(),
{
    if effects.len() == 0 {
        Seq::empty()
    } else {
        let earlier = moved(effects.drop_last());
        if effects.last() is Transfer {
            earlier.push(effects.last())
        } else {
            earlier
        }
    }
}

proof fn lemma_moved_push(effects: Seq<EffectView>, effect: EffectView)
    ensures
        moved(effects.push(effect)) == if effect is Transfer {
            moved(effects).push(effect)
        } else {
            moved(effects)
        },
{
    assert(effects.push(effect).drop_last() =~= effects);
}

proof fn lemma_moved_transfers(
    effects: Seq<EffectView>,
    token: Address,
    from: Address,
    payments: Seq<(Address, i128)>,
)
    ensures
        moved(effects + transfers(token, from, payments)) == moved(effects) + transfers(
            token,
            from,
            payments,
        ),
    decreases payments.len(),
{
    let all = transfers(token, from, payments);
    if payments.len() == 0 {
        assert(effects + all =~= effects);
        assert(moved(effects) + all =~= moved(effects));
    } else {
        let less = transfers(token, from, payments.drop_last());
        lemma_moved_transfers(effects, token, from, payments.drop_last());
        assert(all.drop_last() =~= less);
        assert((effects + all).drop_last() =~= effects + less);
        assert((effects + all).last() == all.last());
        assert((moved(effects) + less).push(all.last()) =~= moved(effects) + all);
    }
}

/// What the borrower hands over with a payment.
pub open spec fn inward(env: EnvView, borrower: Address, payment: i128) -> EffectView {
    EffectView::Transfer {
        token: env.ledger.active_loan(borrower)->0.token_address,
        from: borrower,
        to: env.contract,
        amount: payment,
    }
}

/// What the vouchers get with a payment: all that is theirs where it closes the loan,
/// nothing where it does not.
pub open spec fn outward(env: EnvView, borrower: Address, payment: i128) -> Seq<EffectView> {
    let loan = env.ledger.active_loan(borrower)->0;
    let vouches = env.ledger.vouches_of(borrower);
    let token = loan.token_address;
    if payment == loan.outstanding() {
        transfers(
            token,
            env.contract,
            payouts(vouches, token, loan.total_yield, stake_total(vouches, token)),
        )
    } else {
        Seq::empty()
    }
}

proof fn lemma_settle_moves(env: EnvView, borrower: Address, payment: i128)
    ensures
        moved(settle_post(env, borrower, payment).outbox) == if settle_result(
            env,
            borrower,
            payment,
        ) is Ok {
            moved(env.outbox).push(inward(env, borrower, payment)) + outward(
                env,
                borrower,
                payment,
            )
        } else {
            moved(env.outbox)
        },
{
    if settle_result(env, borrower, payment) is Ok {
        let loan = env.ledger.active_loan(borrower)->0;
        let received = env.outbox.push(inward(env, borrower, payment));
        lemma_moved_push(env.outbox, inward(env, borrower, payment));
        if payment == loan.outstanding() {
            let vouches = env.ledger.vouches_of(borrower);
            let token = loan.token_address;
            let list = payouts(vouches, token, loan.total_yield, stake_total(vouches, token));
            lemma_moved_transfers(received, token, env.contract, list);
            let paid = received + transfers(token, env.contract, list);
            let queue = EffectView::ProcessWithdrawalQueue { borrower };
            lemma_moved_push(paid, queue);
            lemma_moved_push(
                paid.push(queue),
                settle_post(env, borrower, payment).outbox.last(),
            );
        } else {
            assert(moved(received) + Seq::<EffectView>::empty() =~= moved(received));
        }
    }
}

proof fn lemma_repay_moves(env: EnvView, borrower: Address, payment: i128)
    requires
        repay_result(env, borrower, payment) is Ok,
    ensures
        moved(repay_post(env, borrower, payment).outbox) == moved(env.outbox).push(
            inward(env, borrower, payment),
        ) + outward(env, borrower, payment),
{
    let ask = EffectView::RequireAuth { who: borrower };
    lemma_moved_push(env.outbox, ask);
    lemma_settle_moves(env.emit(ask), borrower, payment);
}

/// Two payments store what one payment of both together stores. The borrower hands over
/// the same total, in two transfers in place of one, and the vouchers get the same
/// transfers.
pub proof fn payments_add_up(env: EnvView, borrower: Address, first: i128, second: i128)
    requires
        consistent(env.ledger),
        repay_defined(env, borrower, first),
        repay_result(env, borrower, first) is Ok,
        repay_defined(repay_post(env, borrower, first), borrower, second),
        repay_result(repay_post(env, borrower, first), borrower, second) is Ok,
    ensures
        fits(first + second),
        repay_defined(env, borrower, (first + second) as i128),
        repay_result(env, borrower, (first + second) as i128) is Ok,
        repay_post(repay_post(env, borrower, first), borrower, second).ledger == repay_post(
            env,
            borrower,
            (first + second) as i128,
        ).ledger,
        ({
            let both = (first + second) as i128;
            let paid = outward(env, borrower, both);
            let once = repay_post(env, borrower, both);
            let twice = repay_post(repay_post(env, borrower, first), borrower, second);
            &&& moved(once.outbox) == moved(env.outbox).push(inward(env, borrower, both)) + paid
            &&& moved(twice.outbox) == moved(env.outbox).push(inward(env, borrower, first)).push(
                inward(env, borrower, second),
            ) + paid
        }),
{
    let loan = env.ledger.active_loan(borrower)->0;
    let between = repay_post(env, borrower, first);
    assert(first != loan.outstanding());
    let open = between.ledger.active_loan(borrower)->0;
    assert(open == paid_loan(loan, first, env.timestamp));
    assert(open.outstanding() == loan.outstanding() - first);
    let both = (first + second) as i128;
    let twice = repay_post(between, borrower, second).ledger;
    let once = repay_post(env, borrower, both).ledger;
    assert(paid_loan(open, second, env.timestamp) == paid_loan(loan, both, env.timestamp));
    assert(twice.loans =~= once.loans);
    assert(twice =~= once);
    lemma_repay_moves(env, borrower, both);
    lemma_repay_moves(env, borrower, first);
    lemma_repay_moves(between, borrower, second);
    let start = moved(env.outbox).push(inward(env, borrower, first));
    assert(start + outward(env, borrower, first) =~= start);
    assert(inward(between, borrower, second) == inward(env, borrower, second));
    assert(outward(between, borrower, second) == outward(env, borrower, both));
}

// --- Batches ---------------------------------------------------------------

/// Whether two invocations differ in the actions due at most.
spec fn alike(a: EnvView, b: EnvView) -> bool {
    a == (EnvView { outbox: a.outbox, ..b })
}

/// The answer and the invocation after the first `n` payments, made one by one,
/// of which none is made after one that is refused.
pub open spec fn repay_run(
    env: EnvView,
    borrowers: Seq<Address>,
    payments: Seq<i128>,
    n: nat,
) -> (Result<(), ContractError>, EnvView)
    decreases n,
{
    if n == 0 {
        (Ok(()), env)
    } else {
        let k = (n - 1) as nat;
        let (result, before) = repay_run(env, borrowers, payments, k);
        if result is Err {
            (result, before)
        } else {
            (
                repay_result(before, borrowers[k as int], payments[k as int]),
                repay_post(before, borrowers[k as int], payments[k as int]),
            )
        }
    }
}

/// Whether the payment after the first `n` is either not made or has an answer.
pub open spec fn repay_run_defined(
    env: EnvView,
    borrowers: Seq<Address>,
    payments: Seq<i128>,
    n: nat,
) -> bool {
    let (result, before) = repay_run(env, borrowers, payments, n);
    result is Ok ==> repay_defined(before, borrowers[n as int], payments[n as int])
}

proof fn batch_run_is_repay_run(
    env: EnvView,
    borrowers: Seq<Address>,
    payments: Seq<i128>,
    n: nat,
)
    requires
        env.not_paused is Ok,
    ensures
        batch_run(env, borrowers, payments, n).0 == repay_run(env, borrowers, payments, n).0,
        alike(
            batch_run(env, borrowers, payments, n).1,
            repay_run(env, borrowers, payments, n).1,
        ),
        repay_run(env, borrowers, payments, n).1.not_paused is Ok,
        moved(batch_run(env, borrowers, payments, n).1.outbox) == moved(
            repay_run(env, borrowers, payments, n).1.outbox,
        ),
    decreases n,
{
    if n > 0 {
        let k = (n - 1) as nat;
        batch_run_is_repay_run(env, borrowers, payments, k);
        let (result, batch) = batch_run(env, borrowers, payments, k);
        let single = repay_run(env, borrowers, payments, k).1;
        if result is Ok {
            let borrower = borrowers[k as int];
            let payment = payments[k as int];
            let ask = EffectView::RequireAuth { who: borrower };
            lemma_moved_push(batch.outbox, ask);
            lemma_moved_push(single.outbox, ask);
            lemma_settle_moves(batch.emit(ask), borrower, payment);
            lemma_settle_moves(single.emit(ask), borrower, payment);
            lemma_moved_push(
                settle_post(batch.emit(ask), borrower, payment).outbox,
                EffectView::Publish { event: EventView::BatchPayment { borrower, payment } },
            );
        }
    }
}

/// A batch is answered what the payments would be answered one by one, up to the
/// first that is refused, stores what they would store, and makes the same transfers
/// in the same order. It has an answer exactly where they have.
pub proof fn batch_is_one_repayment_after_another(
    env: EnvView,
    borrowers: Seq<Address>,
    payments: Seq<i128>,
)
    requires
        batch_check(env, borrowers, payments) is Ok,
    ensures
        batch_repay_result(env, borrowers, payments) == repay_run(
            env,
            borrowers,
            payments,
            borrowers.len(),
        ).0,
        batch_repay_post(env, borrowers, payments).ledger == repay_run(
            env,
            borrowers,
            payments,
            borrowers.len(),
        ).1.ledger,
        moved(batch_repay_post(env, borrowers, payments).outbox) == moved(
            repay_run(env, borrowers, payments, borrowers.len()).1.outbox,
        ),
        batch_repay_defined(env, borrowers, payments) <==> forall|n: nat|
            n < borrowers.len() ==> #[trigger] repay_run_defined(env, borrowers, payments, n),
{
    batch_run_is_repay_run(env, borrowers, payments, borrowers.len());
    assert forall|n: nat|
        batch_entry_defined(env, borrowers, payments, n) == #[trigger] repay_run_defined(
            env,
            borrowers,
            payments,
            n,
        ) by {
        batch_run_is_repay_run(env, borrowers, payments, n);
    }
    if forall|n: nat|
        n < borrowers.len() ==> #[trigger] repay_run_defined(env, borrowers, payments, n) {
        assert forall|n: nat| n < borrowers.len() implies #[trigger] batch_entry_defined(
            env,
            borrowers,
            payments,
            n,
        ) by {
            assert(repay_run_defined(env, borrowers, payments, n));
        }
    }
}

/// A batch that is refused at some entry has processed exactly the entries before
/// it: what they stored stays, and of the refused one only the authorisation was
/// asked for.
pub proof fn batch_keeps_what_came_before_a_refusal(
    env: EnvView,
    borrowers: Seq<Address>,
    payments: Seq<i128>,
) -> (k: nat)
    requires
        batch_check(env, borrowers, payments) is Ok,
        batch_repay_result(env, borrowers, payments) is Err,
    ensures
        k < borrowers.len(),
        batch_run(env, borrowers, payments, k).0 is Ok,
        ({
            let before = batch_run(env, borrowers, payments, k).1;
            let borrower = borrowers[k as int];
            &&& batch_repay_result(env, borrowers, payments) == settle_result(
                before,
                borrower,
                payments[k as int],
            )
            &&& batch_repay_post(env, borrowers, payments) == before.emit(
                EffectView::RequireAuth { who: borrower },
            )
        }),
{
    first_refusal(env, borrowers, payments, borrowers.len())
}

proof fn first_refusal(
    env: EnvView,
    borrowers: Seq<Address>,
    payments: Seq<i128>,
    n: nat,
) -> (k: nat)
    requires
        batch_run(env, borrowers, payments, n).0 is Err,
    ensures
        k < n,
        batch_run(env, borrowers, payments, k).0 is Ok,
        settle_result(
            batch_run(env, borrowers, payments, k).1,
            borrowers[k as int],
            payments[k as int],
        ) == batch_run(env, borrowers, payments, n).0,
        batch_run(env, borrowers, payments, n).1 == batch_run(env, borrowers, payments, k).1.emit(
            EffectView::RequireAuth { who: borrowers[k as int] },
        ),
    decreases n,
{
    let last = (n - 1) as nat;
    if batch_run(env, borrowers, payments, last).0 is Err {
        first_refusal(env, borrowers, payments, last)
    } else {
        last
    }
}

proof fn batch_run_obeys(env: EnvView, borrowers: Seq<Address>, payments: Seq<i128>, n: nat)
    requires
        consistent(env.ledger),
        batch_check(env, borrowers, payments) is Ok,
        batch_repay_defined(env, borrowers, payments),
        n <= borrowers.len(),
    ensures
        ({
            let after = batch_run(env, borrowers, payments, n).1;
            &&& after.ledger.config == env.ledger.config
            &&& after.ledger.deployer == env.ledger.deployer
            &&& after.contract == env.contract
            &&& loans_are_paid(env.ledger, after.ledger)
            &&& authorised(env.outbox, env.contract) ==> authorised(after.outbox, env.contract)
            &&& forall|other: Address|
                !borrowers.contains(other) ==> #[trigger] same_for(
                    env.ledger,
                    after.ledger,
                    other,
                )
        }),
    decreases n,
{
    if n > 0 {
        let k = (n - 1) as nat;
        batch_run_obeys(env, borrowers, payments, k);
        batch_run_keeps_consistent(env, borrowers, payments, k);
        let (result, before) = batch_run(env, borrowers, payments, k);
        if result is Ok {
            assert(batch_entry_defined(env, borrowers, payments, k));
            let borrower = borrowers[k as int];
            let payment = payments[k as int];
            let after = batch_entry_post(before, borrower, payment);
            assert(loans_are_paid(before.ledger, after.ledger));
            assert(loans_are_paid(env.ledger, after.ledger));

            let ask = EffectView::RequireAuth { who: borrower };
            let asked = before.emit(ask);
            if authorised(env.outbox, env.contract) {
                lemma_authorised_push(before.outbox, before.contract, ask);
                assert(asked.outbox.last() == ask);
                settle_keeps_authorised(asked, borrower, payment);
                lemma_authorised_push(
                    settle_post(asked, borrower, payment).outbox,
                    env.contract,
                    EffectView::Publish { event: EventView::BatchPayment { borrower, payment } },
                );
            }

            assert forall|other: Address| !borrowers.contains(other) implies #[trigger] same_for(
                env.ledger,
                after.ledger,
                other,
            ) by {
                assert(borrowers.contains(borrower));
                assert(same_for(env.ledger, before.ledger, other));
                assert(same_for(before.ledger, after.ledger, other));
            }
        }
    }
}

/// A batch, wherever it ends, leaves the terms and every loan's own terms as they were,
/// changes loans by payments alone, takes no money that was not authorised, and touches no borrower that it does not
/// name.
pub proof fn batches_obey_the_same_laws(
    env: EnvView,
    borrowers: Seq<Address>,
    payments: Seq<i128>,
    other: Address,
)
    requires
        consistent(env.ledger),
        batch_repay_defined(env, borrowers, payments),
    ensures
        ({
            let after = batch_repay_post(env, borrowers, payments);
            &&& after.ledger.config == env.ledger.config
            &&& after.ledger.deployer == env.ledger.deployer
            &&& loans_are_paid(env.ledger, after.ledger)
            &&& authorised(env.outbox, env.contract) ==> authorised(after.outbox, env.contract)
            &&& !borrowers.contains(other) ==> same_for(env.ledger, after.ledger, other)
        }),
{
    if batch_check(env, borrowers, payments) is Ok {
        batch_run_obeys(env, borrowers, payments, borrowers.len());
        let after = batch_repay_post(env, borrowers, payments);
        if !borrowers.contains(other) {
            assert(same_for(env.ledger, after.ledger, other));
        }
    }
}

/// The events among the actions due, in order.
pub open spec fn published(effects: Seq<EffectView>) -> Seq<EventView>
    decreases effects.len(),
{
    if effects.len() == 0 {
        Seq::empty()
    } else {
        let earlier = published(effects.drop_last());
        match effects.last() {
            EffectView::Publish { event } => earlier.push(event),
            _ => earlier,
        }
    }
}

proof fn lemma_published_push(effects: Seq<EffectView>, effect: EffectView)
    ensures
        published(effects.push(effect)) == match effect {
            EffectView::Publish { event } => published(effects).push(event),
            _ => published(effects),
        },
{
    assert(effects.push(effect).drop_last() =~= effects);
}

proof fn lemma_published_transfers(
    effects: Seq<EffectView>,
    token: Address,
    from: Address,
    payments: Seq<(Address, i128)>,
)
    ensures
        published(effects + transfers(token, from, payments)) == published(effects),
    decreases payments.len(),
{
    let all = transfers(token, from, payments);
    if payments.len() == 0 {
        assert(effects + all =~= effects);
    } else {
        let less = transfers(token, from, payments.drop_last());
        lemma_published_transfers(effects, token, from, payments.drop_last());
        assert(all.drop_last() =~= less);
        assert((effects + all).drop_last() =~= effects + less);
        assert((effects + all).last() == all.last());
    }
}

/// What an entry that goes through publishes: that the loan is repaid, where it closes
/// it, and then the payment.
pub open spec fn entry_events(env: EnvView, borrower: Address, payment: i128) -> Seq<EventView> {
    let loan = env.ledger.active_loan(borrower)->0;
    let receipt = EventView::BatchPayment { borrower, payment };
    if payment == loan.outstanding() {
        seq![EventView::LoanRepaid { borrower, amount: loan.amount }, receipt]
    } else {
        seq![receipt]
    }
}

/// What the first `n` entries publish, one after the other, each on the state that it is
/// processed in.
pub open spec fn batch_events(
    env: EnvView,
    borrowers: Seq<Address>,
    payments: Seq<i128>,
    n: nat,
) -> Seq<EventView>
    decreases n,
{
    if n == 0 {
        Seq::empty()
    } else {
        let k = (n - 1) as nat;
        batch_events(env, borrowers, payments, k) + entry_events(
            batch_run(env, borrowers, payments, k).1,
            borrowers[k as int],
            payments[k as int],
        )
    }
}

proof fn lemma_entry_publishes(env: EnvView, borrower: Address, payment: i128)
    ensures
        published(batch_entry_post(env, borrower, payment).outbox) == published(env.outbox) + (
        if settle_result(env, borrower, payment) is Ok {
            entry_events(env, borrower, payment)
        } else {
            Seq::empty()
        }),
{
    let ask = EffectView::RequireAuth { who: borrower };
    let asked = env.emit(ask);
    let start = published(env.outbox);
    lemma_published_push(env.outbox, ask);
    if settle_result(env, borrower, payment) is Ok {
        let loan = env.ledger.active_loan(borrower)->0;
        let received = asked.outbox.push(inward(env, borrower, payment));
        lemma_published_push(asked.outbox, inward(env, borrower, payment));
        let receipt = EventView::BatchPayment { borrower, payment };
        if payment == loan.outstanding() {
            let vouches = env.ledger.vouches_of(borrower);
            let token = loan.token_address;
            let list = payouts(vouches, token, loan.total_yield, stake_total(vouches, token));
            lemma_published_transfers(received, token, env.contract, list);
            let paid = received + transfers(token, env.contract, list);
            let queue = EffectView::ProcessWithdrawalQueue { borrower };
            lemma_published_push(paid, queue);
            let closed = EventView::LoanRepaid { borrower, amount: loan.amount };
            lemma_published_push(paid.push(queue), EffectView::Publish { event: closed });
            assert(start.push(closed).push(receipt) =~= start + entry_events(
                env,
                borrower,
                payment,
            ));
        } else {
            assert(start.push(receipt) =~= start + entry_events(env, borrower, payment));
        }
        lemma_published_push(
            settle_post(asked, borrower, payment).outbox,
            EffectView::Publish { event: receipt },
        );
    } else {
        assert(start + Seq::<EventView>::empty() =~= start);
    }
}

proof fn lemma_run_publishes(env: EnvView, borrowers: Seq<Address>, payments: Seq<i128>, n: nat)
    requires
        batch_run(env, borrowers, payments, n).0 is Ok,
    ensures
        published(batch_run(env, borrowers, payments, n).1.outbox) == published(env.outbox)
            + batch_events(env, borrowers, payments, n),
    decreases n,
{
    let start = published(env.outbox);
    if n == 0 {
        assert(start + Seq::<EventView>::empty() =~= start);
    } else {
        let k = (n - 1) as nat;
        lemma_run_publishes(env, borrowers, payments, k);
        let before = batch_run(env, borrowers, payments, k).1;
        lemma_entry_publishes(before, borrowers[k as int], payments[k as int]);
        let earlier = batch_events(env, borrowers, payments, k);
        let latest = entry_events(before, borrowers[k as int], payments[k as int]);
        assert((start + earlier) + latest =~= start + (earlier + latest));
    }
}

/// A batch publishes one payment event for each entry that goes through, in order, and
/// before it that the loan is repaid where the entry closes it; nothing else. A batch
/// that is refused at some entry has published so much for the entries before it.
pub proof fn batch_publishes_each_payment(
    env: EnvView,
    borrowers: Seq<Address>,
    payments: Seq<i128>,
) -> (k: nat)
    requires
        batch_check(env, borrowers, payments) is Ok,
    ensures
        k <= borrowers.len(),
        batch_run(env, borrowers, payments, k).0 is Ok,
        k == borrowers.len() <==> batch_repay_result(env, borrowers, payments) is Ok,
        k < borrowers.len() ==> settle_result(
            batch_run(env, borrowers, payments, k).1,
            borrowers[k as int],
            payments[k as int],
        ) is Err,
        published(batch_repay_post(env, borrowers, payments).outbox) == published(env.outbox)
            + batch_events(env, borrowers, payments, k),
{
    if batch_repay_result(env, borrowers, payments) is Ok {
        lemma_run_publishes(env, borrowers, payments, borrowers.len());
        borrowers.len()
    } else {
        let k = first_refusal(env, borrowers, payments, borrowers.len());
        lemma_run_publishes(env, borrowers, payments, k);
        lemma_published_push(
            batch_run(env, borrowers, payments, k).1.outbox,
            EffectView::RequireAuth { who: borrowers[k as int] },
        );
        k
    }
}

/// A batch can be cut in two. Where its first part goes through, the rest of it is a
/// batch of its own; where the first part is refused, the rest is not looked at. The
/// whole has an answer exactly where the parts that are looked at have one.
pub proof fn batches_can_be_cut(
    env: EnvView,
    borrowers: Seq<Address>,
    payments: Seq<i128>,
    more_borrowers: Seq<Address>,
    more_payments: Seq<i128>,
)
    requires
        batch_check(env, borrowers, payments) is Ok,
        more_borrowers.len() == more_payments.len(),
        more_borrowers.len() > 0,
    ensures
        ({
            let first = batch_repay_result(env, borrowers, payments);
            let between = batch_repay_post(env, borrowers, payments);
            let all_borrowers = borrowers + more_borrowers;
            let all_payments = payments + more_payments;
            let result = batch_repay_result(env, all_borrowers, all_payments);
            let after = batch_repay_post(env, all_borrowers, all_payments);
            let defined = batch_repay_defined(env, all_borrowers, all_payments);
            &&& first is Ok ==> {
                &&& result == batch_repay_result(between, more_borrowers, more_payments)
                &&& after == batch_repay_post(between, more_borrowers, more_payments)
                &&& defined <==> batch_repay_defined(env, borrowers, payments)
                    && batch_repay_defined(between, more_borrowers, more_payments)
            }
            &&& first is Err ==> {
                &&& result == first
                &&& after == between
                &&& defined <==> batch_repay_defined(env, borrowers, payments)
            }
        }),
{
    let first = batch_repay_result(env, borrowers, payments);
    let between = batch_repay_post(env, borrowers, payments);
    let all_borrowers = borrowers + more_borrowers;
    let all_payments = payments + more_payments;
    let size = borrowers.len();
    batch_run_is_repay_run(env, borrowers, payments, size);
    assert(between.not_paused is Ok);
    batch_run_of_a_start(env, borrowers, payments, more_borrowers, more_payments, size);
    assert forall|n: nat| n < size implies batch_entry_defined(env, borrowers, payments, n) == (
    #[trigger] batch_entry_defined(env, all_borrowers, all_payments, n)) by {
        batch_run_of_a_start(env, borrowers, payments, more_borrowers, more_payments, n);
    }
    if batch_repay_defined(env, all_borrowers, all_payments) {
        assert forall|n: nat| n < size implies #[trigger] batch_entry_defined(
            env,
            borrowers,
            payments,
            n,
        ) by {
            assert(batch_entry_defined(env, all_borrowers, all_payments, n));
        }
    }
    if first is Ok {
        batch_run_of_a_rest(
            env,
            borrowers,
            payments,
            more_borrowers,
            more_payments,
            more_borrowers.len(),
        );
        assert forall|n: nat| n < more_borrowers.len() implies #[trigger] batch_entry_defined(
            between,
            more_borrowers,
            more_payments,
            n,
        ) == batch_entry_defined(env, all_borrowers, all_payments, size + n) by {
            batch_run_of_a_rest(env, borrowers, payments, more_borrowers, more_payments, n);
            assert(all_borrowers[(size + n) as int] == more_borrowers[n as int]);
            assert(all_payments[(size + n) as int] == more_payments[n as int]);
        }
        if batch_repay_defined(env, borrowers, payments) && batch_repay_defined(
            between,
            more_borrowers,
            more_payments,
        ) {
            assert forall|n: nat| n < all_borrowers.len() implies #[trigger] batch_entry_defined(
                env,
                all_borrowers,
                all_payments,
                n,
            ) by {
                if n < size {
                    assert(batch_entry_defined(env, borrowers, payments, n));
                } else {
                    let k = (n - size) as nat;
                    assert(batch_entry_defined(between, more_borrowers, more_payments, k));
                    assert(size + k == n);
                }
            }
        }
    } else {
        lemma_batch_stops(env, all_borrowers, all_payments, size, all_borrowers.len());
        if batch_repay_defined(env, borrowers, payments) {
            assert forall|n: nat| n < all_borrowers.len() implies #[trigger] batch_entry_defined(
                env,
                all_borrowers,
                all_payments,
                n,
            ) by {
                if n < size {
                    assert(batch_entry_defined(env, borrowers, payments, n));
                } else {
                    lemma_batch_stops(env, all_borrowers, all_payments, size, n);
                }
            }
        }
    }
}

proof fn batch_run_of_a_start(
    env: EnvView,
    borrowers: Seq<Address>,
    payments: Seq<i128>,
    more_borrowers: Seq<Address>,
    more_payments: Seq<i128>,
    n: nat,
)
    requires
        n <= borrowers.len(),
        borrowers.len() == payments.len(),
    ensures
        batch_run(env, borrowers + more_borrowers, payments + more_payments, n) == batch_run(
            env,
            borrowers,
            payments,
            n,
        ),
    decreases n,
{
    if n > 0 {
        let k = (n - 1) as nat;
        batch_run_of_a_start(env, borrowers, payments, more_borrowers, more_payments, k);
    }
}

proof fn batch_run_of_a_rest(
    env: EnvView,
    borrowers: Seq<Address>,
    payments: Seq<i128>,
    more_borrowers: Seq<Address>,
    more_payments: Seq<i128>,
    n: nat,
)
    requires
        n <= more_borrowers.len(),
        borrowers.len() == payments.len(),
        more_borrowers.len() == more_payments.len(),
        batch_run(env, borrowers, payments, borrowers.len()).0 is Ok,
    ensures
        batch_run(
            env,
            borrowers + more_borrowers,
            payments + more_payments,
            borrowers.len() + n,
        ) == batch_run(
            batch_run(env, borrowers, payments, borrowers.len()).1,
            more_borrowers,
            more_payments,
            n,
        ),
    decreases n,
{
    batch_run_of_a_start(env, borrowers, payments, more_borrowers, more_payments, borrowers.len());
    if n > 0 {
        let k = (n - 1) as nat;
        batch_run_of_a_rest(env, borrowers, payments, more_borrowers, more_payments, k);
        assert((borrowers + more_borrowers)[(borrowers.len() + k) as int] == more_borrowers[k as int]);
        assert((payments + more_payments)[(borrowers.len() + k) as int] == more_payments[k as int]);
    }
}

// --- Defaults --------------------------------------------------------------

/// A loan whose deadline has not passed is not marked as a partial default, whoever
/// approves of it: nothing is stored and nothing is due. With the approval, and unless
/// the contract is paused, the answer is an invalid transition.
pub proof fn no_partial_default_before_the_deadline(
    env: EnvView,
    approval: Result<(), ContractError>,
    borrower: Address,
)
    requires
        env.ledger.active_loan(borrower) is Some,
        env.timestamp <= env.ledger.active_loan(borrower)->0.deadline,
    ensures
        mark_partial_default_result(env, approval, borrower) is Err,
        mark_partial_default_post(env, approval, borrower) == env,
        env.not_paused is Ok && approval is Ok ==> mark_partial_default_result(
            env,
            approval,
            borrower,
        ) == Err::<(), ContractError>(ContractError::InvalidStateTransition),
{
}

/// A loan of which nothing has been repaid is not marked as a partial default, however
/// late it is: nothing is stored and nothing is due. With the approval, and unless the
/// contract is paused, the answer is an invalid transition.
pub proof fn no_partial_default_with_nothing_repaid(
    env: EnvView,
    approval: Result<(), ContractError>,
    borrower: Address,
)
    requires
        env.ledger.active_loan(borrower) is Some,
        env.ledger.active_loan(borrower)->0.amount_repaid <= 0,
    ensures
        mark_partial_default_result(env, approval, borrower) is Err,
        mark_partial_default_post(env, approval, borrower) == env,
        env.not_paused is Ok && approval is Ok ==> mark_partial_default_result(
            env,
            approval,
            borrower,
        ) == Err::<(), ContractError>(ContractError::InvalidStateTransition),
{
}

/// A loan that is marked as a partial default is no longer open and has no stakes
/// behind it; its slash is on record and counted.
pub proof fn marked_loan_is_on_record(
    env: EnvView,
    approval: Result<(), ContractError>,
    borrower: Address,
)
    requires
        mark_partial_default_defined(env, approval, borrower),
        mark_partial_default_result(env, approval, borrower) is Ok,
    ensures
        ({
            let loan = env.ledger.active_loan(borrower)->0;
            let after = mark_partial_default_post(env, approval, borrower).ledger;
            &&& after.active_loan(borrower) is None
            &&& after.vouches_of(borrower).len() == 0
            &&& after.loans.contains_key(loan.id)
            &&& after.loans[loan.id] == (LoanView { status: LoanStatus::PartialDefault, ..loan })
            &&& after.partial_default_count(borrower) == env.ledger.partial_default_count(borrower)
                + 1
            &&& after.slash_record(loan.id) matches Some(record)
            &&& record.loan_id == loan.id
            &&& record.borrower == borrower
            &&& record.slash_timestamp == env.timestamp
            &&& record.total_slashed == slash_total(
                env.ledger.vouches_of(borrower),
                loan.token_address,
                slash_rate(env.ledger.config->0.slash_bps, loan),
            )
            &&& !record.forgiven
        }),
{
    let loan = env.ledger.active_loan(borrower)->0;
    let vouches = env.ledger.vouches_of(borrower);
    assert(vouches.take(vouches.len() as int) =~= vouches);
    assert(fits(
        slash_total(
            vouches.take(vouches.len() as int),
            loan.token_address,
            slash_rate(env.ledger.config->0.slash_bps, loan),
        ),
    ));
}

/// A partial default can be forgiven, once. Forgiving keeps the slash as it was and
/// puts the reason and the time on its record; it does not take the partial default
/// off the count. To forgive it again is an invalid transition.
pub proof fn partial_default_is_forgiven_once(
    env: EnvView,
    approval: Result<(), ContractError>,
    borrower: Address,
    later: EnvView,
    reason: Seq<char>,
    last: EnvView,
)
    requires
        consistent(env.ledger),
        mark_partial_default_result(env, approval, borrower) is Ok,
        later.ledger == mark_partial_default_post(env, approval, borrower).ledger,
        later.not_paused is Ok,
        last.ledger == forgive_default_post(
            later,
            Ok(()),
            borrower,
            env.ledger.active_loan(borrower)->0.id,
            reason,
        ).ledger,
        last.not_paused is Ok,
    ensures
        ({
            let loan_id = env.ledger.active_loan(borrower)->0.id;
            &&& forgive_default_result(later, Ok(()), borrower, loan_id) is Ok
            &&& last.ledger.loans[loan_id].status == LoanStatus::ForgivenDefault
            &&& last.ledger.slash_record(loan_id) matches Some(record)
            &&& later.ledger.slash_record(loan_id) matches Some(slashed)
            &&& record.total_slashed == slashed.total_slashed
            &&& record.slash_timestamp == slashed.slash_timestamp
            &&& record.forgiven
            &&& record.forgiveness_reason == reason
            &&& record.forgiven_at == later.timestamp
            &&& last.ledger.partial_default_count(borrower) == later.ledger.partial_default_count(
                borrower,
            )
            &&& forgive_default_result(last, Ok(()), borrower, loan_id) == Err::<
                (),
                ContractError,
            >(ContractError::InvalidStateTransition)
        }),
{
}

/// Forgiving a default takes one off the borrower's defaults, and never below
/// none.
pub proof fn forgiveness_restores_the_count(
    env: EnvView,
    approval: Result<(), ContractError>,
    borrower: Address,
    loan_id: u64,
    reason: Seq<char>,
)
    requires
        forgive_default_result(env, approval, borrower, loan_id) is Ok,
    ensures
        ({
            let before = env.ledger.default_count(borrower);
            let after = forgive_default_post(
                env,
                approval,
                borrower,
                loan_id,
                reason,
            ).ledger.default_count(borrower);
            after == if before > 0 {
                before - 1
            } else {
                0
            }
        }),
{
}

// --- Where the money goes --------------------------------------------------

/// The payments, added up.
pub open spec fn paid_out(payments: Seq<(Address, i128)>) -> int
    decreases payments.len(),
{
    if payments.len() == 0 {
        0
    } else {
        paid_out(payments.drop_last()) + payments.last().1
    }
}

/// How many of the stakes are in `token`.
pub open spec fn stake_count(vouches: Seq<VouchRecord>, token: Address) -> nat
    decreases vouches.len(),
{
    if vouches.len() == 0 {
        0
    } else {
        stake_count(vouches.drop_last(), token) + if vouches.last().token == token {
            1nat
        } else {
            0
        }
    }
}

/// Whether no stake in `token` is negative.
pub open spec fn stakes_are_amounts(vouches: Seq<VouchRecord>, token: Address) -> bool {
    forall|i: int|
        0 <= i < vouches.len() && (#[trigger] vouches[i]).token == token ==> vouches[i].stake >= 0
}

proof fn lemma_pushed(payments: Seq<(Address, i128)>, payment: (Address, i128))
    ensures
        paid_out(payments.push(payment)) == paid_out(payments) + payment.1,
{
    assert(payments.push(payment).drop_last() =~= payments);
}

/// Stakes that are amounts come to an amount.
proof fn lemma_stakes_come_to_an_amount(vouches: Seq<VouchRecord>, token: Address)
    requires
        stakes_are_amounts(vouches, token),
    ensures
        stake_total(vouches, token) >= 0,
    decreases vouches.len(),
{
    if vouches.len() > 0 {
        lemma_shorter(vouches, token);
        lemma_stakes_come_to_an_amount(vouches.drop_last(), token);
        assert(vouches[vouches.len() - 1] == vouches.last());
    }
}

proof fn lemma_shorter(vouches: Seq<VouchRecord>, token: Address)
    requires
        stakes_are_amounts(vouches, token),
        vouches.len() > 0,
    ensures
        stakes_are_amounts(vouches.drop_last(), token),
        vouches.last().token == token ==> vouches.last().stake >= 0,
{
    let less = vouches.drop_last();
    assert forall|i: int| 0 <= i < less.len() && (#[trigger] less[i]).token == token implies less[i].stake
        >= 0 by {
        assert(vouches[i] == less[i]);
    }
    assert(vouches[vouches.len() - 1] == vouches.last());
}

/// One stake's part of a yield is not negative, and is its exact part rounded down.
proof fn lemma_share(total_yield: i128, stake: i128, total: int)
    requires
        total_yield >= 0,
        stake >= 0,
        total > 0,
    ensures
        0 <= yield_share(total_yield, stake, total),
        total * yield_share(total_yield, stake, total) <= total_yield * stake,
        total_yield * stake < total * yield_share(total_yield, stake, total) + total,
{
    let exact = total_yield * stake;
    assert(exact >= 0) by (nonlinear_arith)
        requires
            exact == total_yield * stake,
            total_yield >= 0,
            stake >= 0,
    ;
    let share = exact / total;
    assert(0 <= share && total * share <= exact && exact < total * share + total)
        by (nonlinear_arith)
        requires
            exact >= 0,
            total > 0,
            share == exact / total,
    ;
}

proof fn lemma_payouts(vouches: Seq<VouchRecord>, token: Address, total_yield: i128, total: int)
    requires
        total > 0,
        total_yield >= 0,
        stakes_are_amounts(vouches, token),
        forall|i: int|
            0 <= i < vouches.len() && (#[trigger] vouches[i]).token == token ==> fits(
                vouches[i].stake + yield_share(total_yield, vouches[i].stake, total),
            ),
    ensures
        ({
            let staked = stake_total(vouches, token);
            let shares = paid_out(payouts(vouches, token, total_yield, total)) - staked;
            &&& shares >= 0
            &&& total * shares <= total_yield * staked
            &&& total_yield * staked <= total * shares + (total - 1) * stake_count(vouches, token)
            &&& stake_count(vouches, token) == 0 ==> staked == 0
        }),
    decreases vouches.len(),
{
    if vouches.len() == 0 {
        assert(total * 0 == 0 && total_yield * 0 == 0 && (total - 1) * 0 == 0) by (nonlinear_arith);
    } else {
        let less = vouches.drop_last();
        lemma_shorter(vouches, token);
        assert forall|i: int| 0 <= i < less.len() && (#[trigger] less[i]).token == token implies fits(
            less[i].stake + yield_share(total_yield, less[i].stake, total),
        ) by {
            assert(vouches[i] == less[i]);
        }
        lemma_payouts(less, token, total_yield, total);
        let vouch = vouches.last();
        assert(vouches[vouches.len() - 1] == vouch);
        let staked = stake_total(less, token);
        let shares = paid_out(payouts(less, token, total_yield, total)) - staked;
        let n = stake_count(less, token) as int;
        if vouch.token == token {
            let share = yield_share(total_yield, vouch.stake, total);
            lemma_share(total_yield, vouch.stake, total);
            lemma_pushed(
                payouts(less, token, total_yield, total),
                (vouch.voucher, (vouch.stake + share) as i128),
            );
            let stake = vouch.stake as int;
            let yielded = total_yield as int;
            assert(total * (shares + share) <= yielded * (staked + stake) && yielded * (staked
                + stake) <= total * (shares + share) + (total - 1) * (n + 1)) by (nonlinear_arith)
                requires
                    total * shares <= yielded * staked,
                    yielded * staked <= total * shares + (total - 1) * n,
                    total * share <= yielded * stake,
                    yielded * stake < total * share + total,
            ;
        }
    }
}

/// When a loan is closed, the vouchers get their stakes and the yield and no more:
/// what is paid out is covered by the stakes and by what the borrower paid above
/// the principal. Of the yield, less than one unit for each stake in the token is
/// held back, by rounding.
pub proof fn payouts_are_covered(vouches: Seq<VouchRecord>, token: Address, total_yield: i128)
    requires
        total_yield >= 0,
        stakes_are_amounts(vouches, token),
        payouts_fit(vouches, token, total_yield),
    ensures
        ({
            let staked = stake_total(vouches, token);
            let paid = paid_out(payouts(vouches, token, total_yield, staked));
            &&& staked <= paid <= staked + total_yield
            &&& staked > 0 ==> staked + total_yield - stake_count(vouches, token) < paid
        }),
{
    let total = stake_total(vouches, token);
    lemma_stakes_come_to_an_amount(vouches, token);
    if total > 0 {
        lemma_payouts(vouches, token, total_yield, total);
        let shares = paid_out(payouts(vouches, token, total_yield, total)) - total;
        let yielded = total_yield as int;
        let n = stake_count(vouches, token) as int;
        assert(shares <= yielded && yielded - n < shares) by (nonlinear_arith)
            requires
                total > 0,
                n > 0,
                total * shares <= yielded * total,
                yielded * total <= total * shares + (total - 1) * n,
        ;
    } else {
        lemma_payouts_without_yield(vouches, token, total_yield, total);
    }
}

proof fn lemma_payouts_without_yield(
    vouches: Seq<VouchRecord>,
    token: Address,
    total_yield: i128,
    total: int,
)
    requires
        total <= 0,
    ensures
        paid_out(payouts(vouches, token, total_yield, total)) == stake_total(vouches, token),
    decreases vouches.len(),
{
    if vouches.len() > 0 {
        let less = vouches.drop_last();
        lemma_payouts_without_yield(less, token, total_yield, total);
        lemma_pushed(
            payouts(less, token, total_yield, total),
            (vouches.last().voucher, vouches.last().stake),
        );
    }
}

/// The payment that closes a loan and those before it bring in the principal and
/// the yield; so with the stakes, the contract holds what it lent and what it pays
/// out.
pub proof fn closing_a_loan_is_covered(env: EnvView, borrower: Address, payment: i128)
    requires
        repay_defined(env, borrower, payment),
        repay_result(env, borrower, payment) is Ok,
        payment == env.ledger.active_loan(borrower)->0.outstanding(),
        env.ledger.active_loan(borrower)->0.total_yield >= 0,
        stakes_are_amounts(
            env.ledger.vouches_of(borrower),
            env.ledger.active_loan(borrower)->0.token_address,
        ),
    ensures
        ({
            let loan = env.ledger.active_loan(borrower)->0;
            let vouches = env.ledger.vouches_of(borrower);
            let staked = stake_total(vouches, loan.token_address);
            let list = payouts(vouches, loan.token_address, loan.total_yield, staked);
            loan.amount + paid_out(list) <= staked + loan.amount_repaid + payment
        }),
{
    let loan = env.ledger.active_loan(borrower)->0;
    payouts_are_covered(
        env.ledger.vouches_of(borrower),
        loan.token_address,
        loan.total_yield,
    );
}

/// A stake is cut into what is slashed and what goes back: at a rate up to the whole,
/// the two together are the stakes, to the unit. At a rate that is not negative no more
/// is slashed than the rate gives of the stakes together.
pub proof fn slash_is_conserved(vouches: Seq<VouchRecord>, token: Address, rate: int)
    requires
        rate <= BPS,
        stakes_are_amounts(vouches, token),
        rate >= 0 || slashes_fit(vouches, token, rate),
    ensures
        slash_total(vouches, token, rate) + paid_out(remainders(vouches, token, rate))
            == stake_total(vouches, token),
        rate >= 0 ==> 0 <= slash_total(vouches, token, rate) <= quotient(
            stake_total(vouches, token) * rate,
            BPS as int,
        ) <= stake_total(vouches, token),
{
    lemma_slash_parts(vouches, token, rate);
    if rate >= 0 {
        let staked = stake_total(vouches, token);
        lemma_stakes_come_to_an_amount(vouches, token);
        assert(0 <= staked * rate <= staked * 10_000) by (nonlinear_arith)
            requires
                staked >= 0,
                0 <= rate <= 10_000,
        ;
    }
}

proof fn lemma_slash_parts(vouches: Seq<VouchRecord>, token: Address, rate: int)
    requires
        rate <= BPS,
        stakes_are_amounts(vouches, token),
        rate >= 0 || forall|i: int|
            0 <= i < vouches.len() && (#[trigger] vouches[i]).token == token ==> fits(
                vouches[i].stake - slash_of(vouches[i].stake, rate),
            ),
    ensures
        slash_total(vouches, token, rate) + paid_out(remainders(vouches, token, rate))
            == stake_total(vouches, token),
        rate >= 0 ==> 0 <= slash_total(vouches, token, rate),
        rate >= 0 ==> slash_total(vouches, token, rate) * BPS <= stake_total(vouches, token) * rate,
    decreases vouches.len(),
{
    if vouches.len() == 0 {
        assert(0 * rate == 0);
    } else {
        let less = vouches.drop_last();
        lemma_shorter(vouches, token);
        if rate < 0 {
            assert forall|i: int| 0 <= i < less.len() && (
            #[trigger] less[i]).token == token implies fits(
                less[i].stake - slash_of(less[i].stake, rate),
            ) by {
                assert(vouches[i] == less[i]);
            }
        }
        lemma_slash_parts(less, token, rate);
        let vouch = vouches.last();
        assert(vouches[vouches.len() - 1] == vouch);
        if vouch.token == token {
            let stake = vouch.stake as int;
            let product = stake * rate;
            assert(product <= stake * 10_000 && (rate >= 0 ==> product >= 0) && (rate < 0
                ==> product <= 0)) by (nonlinear_arith)
                requires
                    product == stake * rate,
                    stake >= 0,
                    rate <= 10_000,
            ;
            let left = stake - slash_of(vouch.stake, rate);
            lemma_pushed(remainders(less, token, rate), (vouch.voucher, left as i128));
            let staked = stake_total(less, token);
            assert((staked + stake) * rate == staked * rate + product) by (nonlinear_arith)
                requires
                    product == stake * rate,
            ;
        }
    }
}

/// When a loan is marked as a partial default, what is slashed and what goes back to
/// the vouchers are together the stakes behind it, to the unit, as long as the rate does
/// not go beyond the whole. A full rate that is not negative bounds what is slashed.
pub proof fn marking_a_loan_conserves_the_stakes(
    env: EnvView,
    approval: Result<(), ContractError>,
    borrower: Address,
)
    requires
        consistent(env.ledger),
        mark_partial_default_defined(env, approval, borrower),
        mark_partial_default_result(env, approval, borrower) is Ok,
        slash_rate(
            env.ledger.config->0.slash_bps,
            env.ledger.active_loan(borrower)->0,
        ) <= BPS,
        stakes_are_amounts(
            env.ledger.vouches_of(borrower),
            env.ledger.active_loan(borrower)->0.token_address,
        ),
    ensures
        ({
            let loan = env.ledger.active_loan(borrower)->0;
            let vouches = env.ledger.vouches_of(borrower);
            let slash_bps = env.ledger.config->0.slash_bps;
            let rate = slash_rate(slash_bps, loan);
            let staked = stake_total(vouches, loan.token_address);
            let back = paid_out(remainders(vouches, loan.token_address, rate));
            &&& mark_partial_default_post(env, approval, borrower).ledger.slash_record(
                loan.id,
            ) matches Some(record)
            &&& record.total_slashed + back == staked
            &&& slash_bps >= 0 ==> {
                &&& 0 <= record.total_slashed <= staked
                &&& record.total_slashed <= staked * slash_bps / BPS as int
            }
        }),
{
    let loan = env.ledger.active_loan(borrower)->0;
    let vouches = env.ledger.vouches_of(borrower);
    let slash_bps = env.ledger.config->0.slash_bps;
    let rate = slash_rate(slash_bps, loan);
    slash_is_conserved(vouches, loan.token_address, rate);
    marked_loan_is_on_record(env, approval, borrower);
    if slash_bps >= 0 {
        slash_rate_follows_what_is_unpaid(slash_bps, loan, loan);
        lemma_stakes_come_to_an_amount(vouches, loan.token_address);
        let staked = stake_total(vouches, loan.token_address);
        let full = slash_bps as int;
        assert(0 <= staked * rate <= staked * full) by (nonlinear_arith)
            requires
                staked >= 0,
                0 <= rate <= full,
        ;
    }
}

/// The larger number has the larger quotient.
proof fn lemma_quotient_grows(a: int, b: int, d: int)
    requires
        a <= b,
        d > 0,
    ensures
        quotient(a, d) <= quotient(b, d),
{
    let (c, e) = (-a, -b);
    if a >= 0 {
        assert(a / d <= b / d) by (nonlinear_arith)
            requires
                a <= b,
                d > 0,
        ;
    } else if b < 0 {
        assert(e / d <= c / d) by (nonlinear_arith)
            requires
                e <= c,
                d > 0,
        ;
    } else {
        lemma_quotient_bounds(a, d);
        lemma_quotient_bounds(b, d);
    }
}

/// The rate of a slash is in proportion to what is unpaid: it does not grow with what
/// has been repaid. Nothing repaid gives the full rate, everything repaid gives none, and
/// between the two the rate is between none and the full one.
pub proof fn slash_rate_follows_what_is_unpaid(slash_bps: i128, loan: LoanView, more: LoanView)
    requires
        slash_bps >= 0,
        loan.owed() > 0,
        loan.amount_repaid <= more.amount_repaid,
        more.owed() == loan.owed(),
    ensures
        slash_rate(slash_bps, more) <= slash_rate(slash_bps, loan),
        loan.amount_repaid >= 0 ==> slash_rate(slash_bps, loan) <= slash_bps,
        loan.amount_repaid == 0 ==> slash_rate(slash_bps, loan) == slash_bps,
        more.amount_repaid <= loan.owed() ==> slash_rate(slash_bps, more) >= 0,
        more.amount_repaid == loan.owed() ==> slash_rate(slash_bps, more) == 0,
{
    let owed = loan.owed();
    let x = repaid_bps(loan);
    let y = repaid_bps(more);
    let none: int = 0;
    let all = owed * 10_000;
    lemma_quotient_grows(loan.amount_repaid * 10_000, more.amount_repaid * 10_000, owed);
    assert(quotient(none, owed) == 0) by (nonlinear_arith)
        requires
            owed > 0,
            none == 0,
    ;
    assert(quotient(all, owed) == 10_000) by (nonlinear_arith)
        requires
            owed > 0,
            all == owed * 10_000,
    ;
    if loan.amount_repaid >= 0 {
        lemma_quotient_grows(none, loan.amount_repaid * 10_000, owed);
    }
    if more.amount_repaid <= owed {
        lemma_quotient_grows(more.amount_repaid * 10_000, all, owed);
    }
    let full = slash_bps as int;
    let (p, q) = (full * (10_000 - x), full * (10_000 - y));
    assert(q <= p && (x >= 0 ==> p <= full * 10_000) && (x == 0 ==> p == full * 10_000) && (y
        <= 10_000 ==> q >= 0) && (y == 10_000 ==> q == 0)) by (nonlinear_arith)
        requires
            full >= 0,
            x <= y,
            p == full * (10_000 - x),
            q == full * (10_000 - y),
    ;
    lemma_quotient_grows(q, p, 10_000);
    if x >= 0 {
        lemma_quotient_grows(p, full * 10_000, 10_000);
    }
}

/// The payments to `who`, added up.
pub open spec fn paid_to(payments: Seq<(Address, i128)>, who: Address) -> int
    decreases payments.len(),
{
    if payments.len() == 0 {
        0
    } else {
        paid_to(payments.drop_last(), who) + if payments.last().0 == who {
            payments.last().1 as int
        } else {
            0
        }
    }
}

/// At a lower rate no stake loses more, and no voucher gets less back.
proof fn lemma_lower_rate(
    vouches: Seq<VouchRecord>,
    token: Address,
    high: int,
    low: int,
    who: Address,
)
    requires
        low <= high,
        stakes_are_amounts(vouches, token),
        forall|i: int|
            0 <= i < vouches.len() && (#[trigger] vouches[i]).token == token ==> {
                &&& fits(vouches[i].stake - slash_of(vouches[i].stake, high))
                &&& fits(vouches[i].stake - slash_of(vouches[i].stake, low))
            },
    ensures
        slash_total(vouches, token, low) <= slash_total(vouches, token, high),
        paid_to(remainders(vouches, token, high), who) <= paid_to(
            remainders(vouches, token, low),
            who,
        ),
    decreases vouches.len(),
{
    if vouches.len() > 0 {
        let less = vouches.drop_last();
        lemma_shorter(vouches, token);
        assert forall|i: int| 0 <= i < less.len() && (#[trigger] less[i]).token == token implies {
            &&& fits(less[i].stake - slash_of(less[i].stake, high))
            &&& fits(less[i].stake - slash_of(less[i].stake, low))
        } by {
            assert(vouches[i] == less[i]);
        }
        lemma_lower_rate(less, token, high, low, who);
        let vouch = vouches.last();
        assert(vouches[vouches.len() - 1] == vouch);
        if vouch.token == token {
            let stake = vouch.stake;
            assert(stake * low <= stake * high) by (nonlinear_arith)
                requires
                    stake >= 0,
                    low <= high,
            ;
            lemma_quotient_grows(stake * low, stake * high, BPS as int);
            let most = (vouch.voucher, (stake - slash_of(stake, low)) as i128);
            let least = (vouch.voucher, (stake - slash_of(stake, high)) as i128);
            let at_low = remainders(less, token, low);
            let at_high = remainders(less, token, high);
            assert(at_low.push(most).drop_last() =~= at_low);
            assert(at_high.push(least).drop_last() =~= at_high);
        }
    }
}

/// The more of a loan has been repaid, the less the vouchers lose: with the same stakes
/// behind it, the total slashed does not grow, and what goes back to each voucher does
/// not shrink.
pub proof fn vouchers_lose_less_the_more_is_repaid(
    vouches: Seq<VouchRecord>,
    token: Address,
    slash_bps: i128,
    loan: LoanView,
    more: LoanView,
    voucher: Address,
)
    requires
        slash_bps >= 0,
        loan.owed() > 0,
        loan.amount_repaid <= more.amount_repaid,
        more.owed() == loan.owed(),
        stakes_are_amounts(vouches, token),
        slashes_fit(vouches, token, slash_rate(slash_bps, loan)),
        slashes_fit(vouches, token, slash_rate(slash_bps, more)),
    ensures
        ({
            let rate = slash_rate(slash_bps, loan);
            let lower = slash_rate(slash_bps, more);
            &&& slash_total(vouches, token, lower) <= slash_total(vouches, token, rate)
            &&& paid_to(remainders(vouches, token, rate), voucher) <= paid_to(
                remainders(vouches, token, lower),
                voucher,
            )
        }),
{
    slash_rate_follows_what_is_unpaid(slash_bps, loan, more);
    lemma_lower_rate(
        vouches,
        token,
        slash_rate(slash_bps, loan),
        slash_rate(slash_bps, more),
        voucher,
    );
}

// --- Other tokens ----------------------------------------------------------

/// The stakes in `token`, in order.
pub open spec fn in_token(vouches: Seq<VouchRecord>, token: Address) -> Seq<VouchRecord>
    decreases vouches.len(),
{
    if vouches.len() == 0 {
        Seq::empty()
    } else {
        let earlier = in_token(vouches.drop_last(), token);
        if vouches.last().token == token {
            earlier.push(vouches.last())
        } else {
            earlier
        }
    }
}

/// Stakes in another token play no part in any total, share or slash.
pub proof fn other_tokens_play_no_part(
    vouches: Seq<VouchRecord>,
    token: Address,
    total_yield: i128,
    total_stake: int,
    rate: int,
)
    ensures
        ({
            let own = in_token(vouches, token);
            &&& stake_total(vouches, token) == stake_total(own, token)
            &&& stake_totals_fit(vouches, token) == stake_totals_fit(own, token)
            &&& payouts(vouches, token, total_yield, total_stake) == payouts(
                own,
                token,
                total_yield,
                total_stake,
            )
            &&& slash_total(vouches, token, rate) == slash_total(own, token, rate)
            &&& remainders(vouches, token, rate) == remainders(own, token, rate)
        }),
    decreases vouches.len(),
{
    if vouches.len() > 0 {
        let less = vouches.drop_last();
        other_tokens_play_no_part(less, token, total_yield, total_stake, rate);
        lemma_totals_fit_step(vouches, token);
        if vouches.last().token == token {
            let own = in_token(vouches, token);
            assert(own.drop_last() =~= in_token(less, token));
            lemma_totals_fit_step(own, token);
        } else {
            assert(less.take(less.len() as int) =~= less);
            assert(stake_totals_fit(less, token) ==> fits(
                stake_total(less.take(less.len() as int), token),
            ));
        }
    }
}

proof fn lemma_totals_fit_step(vouches: Seq<VouchRecord>, token: Address)
    requires
        vouches.len() > 0,
    ensures
        stake_totals_fit(vouches, token) <==> stake_totals_fit(vouches.drop_last(), token) && fits(
            stake_total(vouches, token),
        ),
{
    let less = vouches.drop_last();
    let size = vouches.len() as int;
    assert(vouches.take(size) =~= vouches);
    if stake_totals_fit(vouches, token) {
        assert(fits(stake_total(vouches.take(size), token)));
        assert forall|k: int| 0 <= k <= less.len() implies fits(
            #[trigger] stake_total(less.take(k), token),
        ) by {
            assert(less.take(k) =~= vouches.take(k));
            assert(fits(stake_total(vouches.take(k), token)));
        }
    }
    if stake_totals_fit(less, token) && fits(stake_total(vouches, token)) {
        assert forall|k: int| 0 <= k <= size implies fits(
            #[trigger] stake_total(vouches.take(k), token),
        ) by {
            if k < size {
                assert(less.take(k) =~= vouches.take(k));
                assert(fits(stake_total(less.take(k), token)));
            }
        }
    }
}

/// Stakes in another token never change the answer to a request for a loan, nor whether
/// it has one, nor the loan that is granted and what is due for it.
pub proof fn stakes_in_other_tokens_never_change_the_answer(
    env: EnvView,
    other: EnvView,
    borrower: Address,
    amount: i128,
    threshold: i128,
    loan_purpose: Seq<char>,
    token: Address,
)
    requires
        other == env.with_ledger(LedgerView { vouches: other.ledger.vouches, ..env.ledger }),
        in_token(env.ledger.vouches_of(borrower), token) == in_token(
            other.ledger.vouches_of(borrower),
            token,
        ),
    ensures
        request_loan_defined(env, borrower, amount, threshold, token) == request_loan_defined(
            other,
            borrower,
            amount,
            threshold,
            token,
        ),
        request_loan_result(env, borrower, amount, threshold, token) == request_loan_result(
            other,
            borrower,
            amount,
            threshold,
            token,
        ),
        ({
            let after = request_loan_post(env, borrower, amount, threshold, loan_purpose, token);
            let other_after = request_loan_post(
                other,
                borrower,
                amount,
                threshold,
                loan_purpose,
                token,
            );
            other_after == after.with_ledger(
                LedgerView { vouches: other.ledger.vouches, ..after.ledger },
            )
        }),
{
    other_tokens_play_no_part(env.ledger.vouches_of(borrower), token, 0, 0, 0);
    other_tokens_play_no_part(other.ledger.vouches_of(borrower), token, 0, 0, 0);
}

} // verus!
