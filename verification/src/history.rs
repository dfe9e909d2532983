//! What holds of a contract over a run of calls.

use vstd::prelude::*;

use crate::env::EnvView;
use crate::laws::{
    batch_repay_keeps_consistent, batches_obey_the_same_laws, consistent, empty_is_consistent,
    forgive_default_keeps_consistent, initialize_keeps_consistent,
    mark_partial_default_keeps_consistent, repay_keeps_consistent, request_loan_keeps_consistent,
};
use crate::ledger::LedgerView;
use crate::rules::{
    batch_repay_defined, batch_repay_post, batch_repay_result, batch_run,
    forgive_default_post, forgive_default_result, initialize_post, initialize_result,
    mark_partial_default_defined, mark_partial_default_post, mark_partial_default_result, new_loan,
    repay_defined, repay_post, repay_result, request_loan_defined, request_loan_post,
    request_loan_result,
};
use crate::types::{Address, ContractError, Defaults, LoanStatus, LoanView, VouchRecord};

verus! {

/// A call that changes what is stored.
pub enum Call {
    Initialize {
        deployer: Address,
        admins: Seq<Address>,
        admin_threshold: u32,
        token: Address,
        defaults: Defaults,
    },
    RequestLoan {
        borrower: Address,
        amount: i128,
        threshold: i128,
        loan_purpose: Seq<char>,
        token: Address,
    },
    Repay { borrower: Address, payment: i128 },
    BatchRepay { borrowers: Seq<Address>, payments: Seq<i128> },
    MarkPartialDefault { approval: Result<(), ContractError>, borrower: Address },
    ForgiveDefault {
        approval: Result<(), ContractError>,
        borrower: Address,
        loan_id: u64,
        reason: Seq<char>,
    },
}

impl Call {
    /// What the call is answered.
    pub open spec fn result(self, env: EnvView) -> Result<(), ContractError> {
        match self {
            Call::Initialize { admins, admin_threshold, .. } => initialize_result(
                env,
                admins,
                admin_threshold,
            ),
            Call::RequestLoan { borrower, amount, threshold, token, .. } => request_loan_result(
                env,
                borrower,
                amount,
                threshold,
                token,
            ),
            Call::Repay { borrower, payment } => repay_result(env, borrower, payment),
            Call::BatchRepay { borrowers, payments } => batch_repay_result(
                env,
                borrowers,
                payments,
            ),
            Call::MarkPartialDefault { approval, borrower } => mark_partial_default_result(
                env,
                approval,
                borrower,
            ),
            Call::ForgiveDefault { approval, borrower, loan_id, .. } => forgive_default_result(
                env,
                approval,
                borrower,
                loan_id,
            ),
        }
    }

    /// The invocation once the call is over.
    pub open spec fn post(self, env: EnvView) -> EnvView {
        match self {
            Call::Initialize { deployer, admins, admin_threshold, token, defaults } => {
                initialize_post(env, deployer, admins, admin_threshold, token, defaults)
            },
            Call::RequestLoan { borrower, amount, threshold, loan_purpose, token } => {
                request_loan_post(env, borrower, amount, threshold, loan_purpose, token)
            },
            Call::Repay { borrower, payment } => repay_post(env, borrower, payment),
            Call::BatchRepay { borrowers, payments } => batch_repay_post(env, borrowers, payments),
            Call::MarkPartialDefault { approval, borrower } => mark_partial_default_post(
                env,
                approval,
                borrower,
            ),
            Call::ForgiveDefault { approval, borrower, loan_id, reason } => forgive_default_post(
                env,
                approval,
                borrower,
                loan_id,
                reason,
            ),
        }
    }

    /// Whether the call has an answer.
    pub open spec fn defined(self, env: EnvView) -> bool {
        match self {
            Call::RequestLoan { borrower, amount, threshold, token, .. } => request_loan_defined(
                env,
                borrower,
                amount,
                threshold,
                token,
            ),
            Call::Repay { borrower, payment } => repay_defined(env, borrower, payment),
            Call::BatchRepay { borrowers, payments } => batch_repay_defined(
                env,
                borrowers,
                payments,
            ),
            Call::MarkPartialDefault { approval, borrower } => mark_partial_default_defined(
                env,
                approval,
                borrower,
            ),
            _ => true,
        }
    }
}

/// One invocation in a run: the call, and what it finds at that time.
pub struct Step {
    pub call: Call,
    /// The stakes: vouching and withdrawals change them between the calls.
    pub vouches: Map<Address, Seq<VouchRecord>>,
    pub contract: Address,
    pub timestamp: u64,
    pub not_paused: Result<(), ContractError>,
    pub admitted_tokens: Seq<Address>,
    pub token_refusal: ContractError,
    /// Whether the host undoes what a refused call stored.
    pub undone: bool,
}

impl Step {
    /// The invocation over what is stored.
    pub open spec fn env(self, ledger: LedgerView) -> EnvView {
        EnvView {
            ledger: LedgerView { vouches: self.vouches, ..ledger },
            outbox: Seq::empty(),
            contract: self.contract,
            timestamp: self.timestamp,
            not_paused: self.not_paused,
            admitted_tokens: self.admitted_tokens,
            token_refusal: self.token_refusal,
        }
    }

    /// What is stored once the step is over.
    pub open spec fn end(self, ledger: LedgerView) -> LedgerView {
        let env = self.env(ledger);
        if self.undone && self.call.result(env) is Err {
            env.ledger
        } else {
            self.call.post(env).ledger
        }
    }

    /// Whether the step grants a loan.
    pub open spec fn grants(self, ledger: LedgerView) -> bool {
        self.call is RequestLoan && self.call.result(self.env(ledger)) is Ok
    }

    /// Whether the step marks a loan of `borrower` as a partial default.
    pub open spec fn marks(self, ledger: LedgerView, borrower: Address) -> bool {
        &&& self.call matches Call::MarkPartialDefault { borrower: who, .. }
        &&& who == borrower
        &&& self.call.result(self.env(ledger)) is Ok
    }
}

/// What is stored after the first `n` steps.
pub open spec fn after(start: LedgerView, steps: Seq<Step>, n: nat) -> LedgerView
    decreases n,
{
    if n == 0 {
        start
    } else {
        steps[n - 1].end(after(start, steps, (n - 1) as nat))
    }
}

/// Whether the step after the first `n` has an answer.
pub open spec fn step_defined(start: LedgerView, steps: Seq<Step>, n: nat) -> bool {
    let step = steps[n as int];
    step.call.defined(step.env(after(start, steps, n)))
}

/// Whether every step of a run has an answer.
pub open spec fn run_defined(start: LedgerView, steps: Seq<Step>) -> bool {
    forall|n: nat| n < steps.len() ==> #[trigger] step_defined(start, steps, n)
}

/// How many of the first `n` steps grant a loan.
pub open spec fn grants(start: LedgerView, steps: Seq<Step>, n: nat) -> nat
    decreases n,
{
    if n == 0 {
        0
    } else {
        let k = (n - 1) as nat;
        grants(start, steps, k) + if steps[k as int].grants(after(start, steps, k)) {
            1nat
        } else {
            0
        }
    }
}

/// How many of the first `n` steps mark a loan of `borrower` as a partial default.
pub open spec fn marks(start: LedgerView, steps: Seq<Step>, borrower: Address, n: nat) -> nat
    decreases n,
{
    if n == 0 {
        0
    } else {
        let k = (n - 1) as nat;
        marks(start, steps, borrower, k) + if steps[k as int].marks(
            after(start, steps, k),
            borrower,
        ) {
            1nat
        } else {
            0
        }
    }
}

/// A batch neither numbers loans nor counts defaults.
proof fn lemma_batch_counts_nothing(
    env: EnvView,
    borrowers: Seq<Address>,
    payments: Seq<i128>,
    n: nat,
)
    ensures
        ({
            let end = batch_run(env, borrowers, payments, n).1.ledger;
            &&& end.loan_counter == env.ledger.loan_counter
            &&& end.partial_default_counts == env.ledger.partial_default_counts
        }),
    decreases n,
{
    if n > 0 {
        lemma_batch_counts_nothing(env, borrowers, payments, (n - 1) as nat);
    }
}

/// One step numbers a loan where it grants one, and counts a partial default where it
/// marks one, and not otherwise.
proof fn lemma_step_counts(ledger: LedgerView, step: Step, borrower: Address)
    requires
        step.call.defined(step.env(ledger)),
    ensures
        ({
            let end = step.end(ledger);
            &&& end.loans_numbered() == ledger.loans_numbered() + if step.grants(ledger) {
                1nat
            } else {
                0
            }
            &&& end.partial_default_count(borrower) == ledger.partial_default_count(borrower)
                + if step.marks(ledger, borrower) {
                1nat
            } else {
                0
            }
        }),
{
    if let Call::BatchRepay { borrowers, payments } = step.call {
        lemma_batch_counts_nothing(step.env(ledger), borrowers, payments, borrowers.len());
    }
}

/// What a run leaves stored is consistent at every point of it, if it was to begin with.
pub proof fn runs_stay_consistent(start: LedgerView, steps: Seq<Step>, n: nat)
    requires
        consistent(start),
        run_defined(start, steps),
        n <= steps.len(),
    ensures
        consistent(after(start, steps, n)),
    decreases n,
{
    if n > 0 {
        let k = (n - 1) as nat;
        runs_stay_consistent(start, steps, k);
        assert(step_defined(start, steps, k));
        let step = steps[k as int];
        let env = step.env(after(start, steps, k));
        match step.call {
            Call::Initialize { deployer, admins, admin_threshold, token, defaults } => {
                initialize_keeps_consistent(
                    env,
                    deployer,
                    admins,
                    admin_threshold,
                    token,
                    defaults,
                );
            },
            Call::RequestLoan { borrower, amount, threshold, loan_purpose, token } => {
                request_loan_keeps_consistent(
                    env,
                    borrower,
                    amount,
                    threshold,
                    loan_purpose,
                    token,
                );
            },
            Call::Repay { borrower, payment } => {
                repay_keeps_consistent(env, borrower, payment);
            },
            Call::BatchRepay { borrowers, payments } => {
                batch_repay_keeps_consistent(env, borrowers, payments);
            },
            Call::MarkPartialDefault { approval, borrower } => {
                mark_partial_default_keeps_consistent(env, approval, borrower);
            },
            Call::ForgiveDefault { approval, borrower, loan_id, reason } => {
                forgive_default_keeps_consistent(env, approval, borrower, loan_id, reason);
            },
        }
    }
}

/// Whether what was settled in `a` is so in `b`: the terms, once set, are the same, every
/// loan is there on its own terms with no less repaid, and one that is repaid or forgiven
/// is as it was.
pub open spec fn settled_stays(a: LedgerView, b: LedgerView) -> bool {
    &&& a.config is Some ==> b.config == a.config && b.deployer == a.deployer
    &&& forall|id: u64| #[trigger]
        a.loans.contains_key(id) ==> {
            let (old_loan, loan) = (a.loans[id], b.loans[id]);
            &&& b.loans.contains_key(id)
            &&& loan == LoanView {
                amount_repaid: loan.amount_repaid,
                status: loan.status,
                repayment_timestamp: loan.repayment_timestamp,
                ..old_loan
            }
            &&& old_loan.amount_repaid <= loan.amount_repaid
            &&& old_loan.status == LoanStatus::Repaid || old_loan.status
                == LoanStatus::ForgivenDefault ==> loan == old_loan
        }
}

proof fn lemma_step_leaves_what_is_settled(ledger: LedgerView, step: Step)
    requires
        consistent(ledger),
        step.call.defined(step.env(ledger)),
    ensures
        settled_stays(ledger, step.end(ledger)),
{
    if let Call::BatchRepay { borrowers, payments } = step.call {
        batches_obey_the_same_laws(step.env(ledger), borrowers, payments, step.contract);
    }
}

/// Over a run of calls the terms stay as they were set, no loan is dropped, changes its
/// terms or loses a payment, and a loan that is repaid or forgiven is never touched again.
pub proof fn runs_leave_what_is_settled(start: LedgerView, steps: Seq<Step>, m: nat, n: nat)
    requires
        consistent(start),
        run_defined(start, steps),
        m <= n <= steps.len(),
    ensures
        settled_stays(after(start, steps, m), after(start, steps, n)),
    decreases n,
{
    if m < n {
        let k = (n - 1) as nat;
        runs_leave_what_is_settled(start, steps, m, k);
        runs_stay_consistent(start, steps, k);
        assert(step_defined(start, steps, k));
        lemma_step_leaves_what_is_settled(after(start, steps, k), steps[k as int]);
        let (first, before) = (after(start, steps, m), after(start, steps, k));
        assert(forall|id: u64| #[trigger]
            first.loans.contains_key(id) ==> before.loans.contains_key(id));
    }
}

/// The number of the latest loan counts the loans granted.
pub proof fn loans_are_counted(start: LedgerView, steps: Seq<Step>, n: nat)
    requires
        run_defined(start, steps),
        n <= steps.len(),
    ensures
        after(start, steps, n).loans_numbered() == start.loans_numbered() + grants(start, steps, n),
    decreases n,
{
    if n > 0 {
        let k = (n - 1) as nat;
        loans_are_counted(start, steps, k);
        assert(step_defined(start, steps, k));
        let step = steps[k as int];
        lemma_step_counts(after(start, steps, k), step, step.contract);
    }
}

/// The loans of a contract are numbered from one in the order in which they are granted:
/// the loan of the k-th grant is stored under the number k, and is its borrower's open
/// loan.
pub proof fn loans_are_numbered_as_they_are_granted(steps: Seq<Step>, n: nat)
    requires
        run_defined(LedgerView::empty(), steps),
        n < steps.len(),
        steps[n as int].grants(after(LedgerView::empty(), steps, n)),
    ensures
        ({
            let start = LedgerView::empty();
            let before = after(start, steps, n);
            let end = after(start, steps, n + 1);
            let k = grants(start, steps, n + 1);
            let step = steps[n as int];
            &&& step.call matches Call::RequestLoan { borrower, amount, loan_purpose, token, .. }
            &&& k == grants(start, steps, n) + 1
            &&& k <= u64::MAX
            &&& !before.loans.contains_key(k as u64)
            &&& end.active_loan(borrower) == Some(
                new_loan(step.env(before), borrower, amount, loan_purpose, token),
            )
            &&& end.active_loan(borrower)->0.id == k
            &&& end.loans.contains_key(k as u64)
            &&& end.loans[k as u64].id == k
        }),
{
    let start = LedgerView::empty();
    loans_are_counted(start, steps, n);
    loans_are_counted(start, steps, n + 1);
    empty_is_consistent();
    runs_stay_consistent(start, steps, n);
    assert(step_defined(start, steps, n));
}

/// The partial defaults counted against a borrower are the marks that went through.
pub proof fn partial_defaults_are_counted(
    start: LedgerView,
    steps: Seq<Step>,
    borrower: Address,
    n: nat,
)
    requires
        run_defined(start, steps),
        n <= steps.len(),
    ensures
        after(start, steps, n).partial_default_count(borrower) == start.partial_default_count(
            borrower,
        ) + marks(start, steps, borrower, n),
    decreases n,
{
    if n > 0 {
        let k = (n - 1) as nat;
        partial_defaults_are_counted(start, steps, borrower, k);
        assert(step_defined(start, steps, k));
        lemma_step_counts(after(start, steps, k), steps[k as int], borrower);
    }
}

} // verus!
