use quorum_credit::{
    Address, Config, ContractError, Defaults, Effect, Env, Event, Ledger, LoanRecord, LoanStatus,
    Outbox, QuorumCreditContract, SlashRecord, VouchRecord,
};

const NOW: u64 = 5_000;
/// The first instant after the deadline of a loan that was made at `NOW`.
const LATE: u64 = 6_001;
const PAUSED: ContractError = ContractError::Code(90);
const BAD_TOKEN: ContractError = ContractError::Code(91);
const NOT_APPROVED: ContractError = ContractError::Code(92);

fn account(n: u128) -> Address {
    Address { is_contract: false, high: 7, low: n }
}

fn token() -> Address {
    Address { is_contract: true, high: 1, low: 1 }
}

fn other_token() -> Address {
    Address { is_contract: true, high: 1, low: 2 }
}

fn contract() -> Address {
    Address { is_contract: true, high: 9, low: 9 }
}

fn borrower() -> Address {
    account(1)
}

fn defaults() -> Defaults {
    Defaults {
        yield_bps: 200,
        slash_bps: 5_000,
        max_vouchers: 100,
        min_loan_amount: 100,
        loan_duration: 1_000,
        max_loan_to_stake_ratio: 150,
        min_vouch_age_secs: 60,
        liquidity_mining_rate_bps: 10,
    }
}

fn blank() -> Env {
    Env {
        ledger: Ledger::new(),
        outbox: Outbox::new(),
        contract: contract(),
        timestamp: NOW,
        not_paused: Ok(()),
        admitted_tokens: vec![token(), other_token()],
        token_refusal: BAD_TOKEN,
    }
}

/// A contract that has been set up, with nothing due.
fn ready() -> Env {
    let mut env = blank();
    let admins = vec![account(50), account(51), account(52)];
    let r = QuorumCreditContract::initialize(&mut env, account(40), admins, 2, token(), defaults());
    assert_eq!(r, Ok(()));
    env.outbox = Outbox::new();
    env
}

fn vouch(voucher: u128, token: Address, stake: i128) -> VouchRecord {
    VouchRecord { voucher: account(voucher), token, stake }
}

/// A contract with stakes of 3,000 and 7,000 behind the borrower, and one in
/// another token.
fn backed() -> Env {
    let mut env = ready();
    env.ledger.set_vouches(
        borrower(),
        vec![
            vouch(10, token(), 3_000),
            vouch(11, other_token(), 999),
            vouch(12, token(), 7_000),
        ],
    );
    env
}

/// The same with a loan of 10,000 running, which earns 200.
fn lent() -> Env {
    let mut env = backed();
    let r = QuorumCreditContract::request_loan(
        &mut env,
        borrower(),
        10_000,
        10_000,
        String::from("seed"),
        token(),
    );
    assert_eq!(r, Ok(()));
    env.outbox = Outbox::new();
    env
}

/// The same with partial defaults enabled below the given share.
fn lent_with_threshold(threshold: u32) -> Env {
    let mut env = lent();
    env.ledger.set_config(config(threshold));
    env
}

/// The same with so much repaid and the deadline just passed.
fn overdue(threshold: u32, repaid: i128) -> Env {
    let mut env = lent_with_threshold(threshold);
    assert_eq!(QuorumCreditContract::repay(&mut env, borrower(), repaid), Ok(()));
    env.outbox = Outbox::new();
    env.timestamp = LATE;
    env
}

fn config(partial_default_threshold_bps: u32) -> Config {
    Config {
        admins: vec![account(50), account(51), account(52)],
        admin_threshold: 2,
        token: token(),
        allowed_tokens: vec![],
        yield_bps: 200,
        slash_bps: 5_000,
        max_vouchers: 100,
        min_loan_amount: 100,
        loan_duration: 1_000,
        max_loan_to_stake_ratio: 150,
        grace_period: 0,
        min_vouch_age_secs: 60,
        prepayment_penalty_bps: 0,
        liquidity_mining_rate_bps: 10,
        partial_default_threshold_bps,
    }
}

fn due(env: &mut Env) -> Vec<Effect> {
    let outbox = std::mem::replace(&mut env.outbox, Outbox::new());
    outbox.into_effects()
}

fn auth(who: Address) -> Effect {
    Effect::RequireAuth { who }
}

fn transfer(from: Address, to: Address, amount: i128) -> Effect {
    Effect::Transfer { token: token(), from, to, amount }
}

fn publish(event: Event) -> Effect {
    Effect::Publish { event }
}

fn request(env: &mut Env, amount: i128, threshold: i128, token: Address) -> Result<(), ContractError> {
    QuorumCreditContract::request_loan(
        env,
        borrower(),
        amount,
        threshold,
        String::from("seed"),
        token,
    )
}

#[test]
fn initialize_stores_the_terms() {
    let mut env = blank();
    let admins = vec![account(50), account(51), account(52)];
    let r = QuorumCreditContract::initialize(&mut env, account(40), admins, 2, token(), defaults());
    assert_eq!(r, Ok(()));
    assert_eq!(env.ledger.deployer(), Some(account(40)));
    assert_eq!(env.ledger.config(), Some(&config(0)));
    assert_eq!(due(&mut env), vec![auth(account(40))]);
}

#[test]
fn initialize_happens_once() {
    let mut env = ready();
    let r = QuorumCreditContract::initialize(
        &mut env,
        account(41),
        vec![account(60)],
        1,
        other_token(),
        defaults(),
    );
    assert_eq!(r, Err(ContractError::AlreadyInitialized));
    assert_eq!(env.ledger.deployer(), Some(account(40)));
    assert_eq!(env.ledger.config(), Some(&config(0)));
    assert_eq!(due(&mut env), vec![auth(account(41))]);
}

#[test]
fn initialize_checks_the_threshold() {
    for (admins, threshold) in [(vec![], 0), (vec![], 1), (vec![account(50)], 0), (vec![account(50)], 2)] {
        let mut env = blank();
        let r = QuorumCreditContract::initialize(
            &mut env,
            account(40),
            admins,
            threshold,
            token(),
            defaults(),
        );
        assert_eq!(r, Err(ContractError::InvalidAmount));
        assert_eq!(env.ledger.config(), None);
        assert_eq!(env.ledger.deployer(), None);
    }
    let mut env = blank();
    let r = QuorumCreditContract::initialize(
        &mut env,
        account(40),
        vec![account(50)],
        1,
        token(),
        defaults(),
    );
    assert_eq!(r, Ok(()));
}

#[test]
fn loan_is_granted() {
    let mut env = backed();
    assert_eq!(request(&mut env, 10_000, 10_000, token()), Ok(()));
    let loan = LoanRecord {
        id: 1,
        borrower: borrower(),
        co_borrowers: vec![],
        amount: 10_000,
        amount_repaid: 0,
        total_yield: 200,
        status: LoanStatus::Active,
        created_at: NOW,
        disbursement_timestamp: NOW,
        repayment_timestamp: None,
        deadline: NOW + 1_000,
        loan_purpose: String::from("seed"),
        token_address: token(),
        amortization_schedule: vec![],
        reminder_sent: false,
        risk_score: 0,
    };
    assert_eq!(QuorumCreditContract::get_loan(&env, borrower()), Some(loan));
    assert_eq!(env.ledger.loan_counter(), Some(1));
    assert_eq!(env.ledger.active_loan_id(borrower()), Some(1));
    assert!(env.ledger.has_active_loan(borrower()));
    assert_eq!(
        due(&mut env),
        vec![
            auth(borrower()),
            transfer(contract(), borrower(), 10_000),
            publish(Event::LoanCreated { borrower: borrower(), amount: 10_000 }),
        ]
    );
}

#[test]
fn loans_are_numbered_in_order() {
    let mut env = lent();
    let r = QuorumCreditContract::request_loan(
        &mut env,
        account(2),
        150,
        0,
        String::new(),
        other_token(),
    );
    assert_eq!(r, Ok(()));
    let loan = QuorumCreditContract::get_loan(&env, account(2)).unwrap();
    assert_eq!(loan.id, 2);
    assert_eq!(loan.total_yield, 3);
    assert_eq!(QuorumCreditContract::get_loan(&env, borrower()).unwrap().id, 1);
}

#[test]
fn yield_is_rounded_toward_zero() {
    let mut env = backed();
    assert_eq!(request(&mut env, 149, 0, token()), Ok(()));
    assert_eq!(QuorumCreditContract::get_loan(&env, borrower()).unwrap().total_yield, 2);

    let mut env = backed();
    let mut terms = config(0);
    terms.yield_bps = -200;
    env.ledger.set_config(terms);
    assert_eq!(request(&mut env, 149, 0, token()), Ok(()));
    assert_eq!(QuorumCreditContract::get_loan(&env, borrower()).unwrap().total_yield, -2);
}

#[test]
fn loan_requests_are_refused_in_order() {
    let mut env = lent();
    env.not_paused = Err(PAUSED);
    env.admitted_tokens = vec![];
    assert_eq!(request(&mut env, 1, 1_000_000, token()), Err(PAUSED));
    env.not_paused = Ok(());
    assert_eq!(request(&mut env, 1, 1_000_000, token()), Err(ContractError::ActiveLoanExists));

    let mut env = backed();
    env.admitted_tokens = vec![other_token()];
    assert_eq!(request(&mut env, 1, 1_000_000, token()), Err(BAD_TOKEN));
    env.admitted_tokens = vec![other_token(), token()];
    assert_eq!(request(&mut env, 99, 1_000_000, token()), Err(ContractError::LoanBelowMinAmount));
    assert_eq!(request(&mut env, 100, 10_001, token()), Err(ContractError::InsufficientFunds));
    assert_eq!(request(&mut env, 100, 1_000, other_token()), Err(ContractError::InsufficientFunds));
    assert_eq!(env.ledger.loan_counter(), None);
    assert_eq!(QuorumCreditContract::get_loan(&env, borrower()), None);
    assert_eq!(due(&mut env), vec![auth(borrower()), auth(borrower()), auth(borrower()), auth(borrower())]);
    assert_eq!(request(&mut env, 100, 999, other_token()), Ok(()));
}

#[test]
fn unbacked_loan_needs_no_stake_at_threshold_zero() {
    let mut env = ready();
    assert_eq!(request(&mut env, 100, 1, token()), Err(ContractError::InsufficientFunds));
    assert_eq!(request(&mut env, 100, 0, token()), Ok(()));
}

#[test]
fn amounts_that_do_not_fit_have_no_answer() {
    let mut env = backed();
    let r = QuorumCreditContract::try_request_loan(
        &mut env,
        borrower(),
        i128::MAX,
        0,
        String::new(),
        token(),
    );
    assert_eq!(r, None);
    assert_eq!(env.ledger.loan_counter(), None);
    assert_eq!(due(&mut env), vec![]);

    env.ledger.set_vouches(
        borrower(),
        vec![vouch(10, token(), i128::MAX), vouch(11, token(), 1)],
    );
    let r = QuorumCreditContract::try_request_loan(
        &mut env,
        borrower(),
        100,
        0,
        String::new(),
        token(),
    );
    assert_eq!(r, None);

    let mut env = backed();
    env.timestamp = u64::MAX;
    let r = QuorumCreditContract::try_request_loan(
        &mut env,
        borrower(),
        100,
        0,
        String::new(),
        token(),
    );
    assert_eq!(r, None);

    let mut env = backed();
    env.ledger.set_loan_counter(u64::MAX);
    let r = QuorumCreditContract::try_request_loan(
        &mut env,
        borrower(),
        100,
        0,
        String::new(),
        token(),
    );
    assert_eq!(r, None);
}

#[test]
fn calls_before_the_terms_are_set_have_no_answer() {
    let mut env = blank();
    let r = QuorumCreditContract::try_request_loan(
        &mut env,
        borrower(),
        100,
        0,
        String::new(),
        token(),
    );
    assert_eq!(r, None);
    assert_eq!(QuorumCreditContract::try_mark_partial_default(&mut env, Ok(()), borrower()), None);
}

#[test]
fn part_payment_leaves_the_loan_open() {
    let mut env = lent();
    assert_eq!(QuorumCreditContract::repay(&mut env, borrower(), 4_000), Ok(()));
    let loan = QuorumCreditContract::get_loan(&env, borrower()).unwrap();
    assert_eq!(loan.amount_repaid, 4_000);
    assert_eq!(loan.status, LoanStatus::Active);
    assert_eq!(loan.repayment_timestamp, None);
    assert_eq!(QuorumCreditContract::get_vouches(&env, borrower()).len(), 3);
    assert_eq!(
        due(&mut env),
        vec![auth(borrower()), transfer(borrower(), contract(), 4_000)]
    );
}

#[test]
fn full_payment_closes_the_loan_and_pays_the_vouchers() {
    let mut env = lent();
    assert_eq!(QuorumCreditContract::repay(&mut env, borrower(), 10_199), Ok(()));
    due(&mut env);
    assert_eq!(QuorumCreditContract::repay(&mut env, borrower(), 1), Ok(()));
    assert_eq!(QuorumCreditContract::get_loan(&env, borrower()), None);
    assert_eq!(QuorumCreditContract::get_vouches(&env, borrower()), vec![]);
    assert_eq!(env.ledger.vouches(borrower()), None);
    assert_eq!(env.ledger.active_loan_id(borrower()), None);
    let loan = env.ledger.loan(1).unwrap();
    assert_eq!(loan.status, LoanStatus::Repaid);
    assert_eq!(loan.amount_repaid, 10_200);
    assert_eq!(loan.repayment_timestamp, Some(NOW));
    assert_eq!(
        due(&mut env),
        vec![
            auth(borrower()),
            transfer(borrower(), contract(), 1),
            transfer(contract(), account(10), 3_060),
            transfer(contract(), account(12), 7_140),
            Effect::ProcessWithdrawalQueue { borrower: borrower() },
            publish(Event::LoanRepaid { borrower: borrower(), amount: 10_000 }),
        ]
    );
}

#[test]
fn yield_shares_are_rounded_down() {
    let mut env = ready();
    env.ledger.set_vouches(
        borrower(),
        vec![vouch(10, token(), 1), vouch(11, token(), 1), vouch(12, token(), 1)],
    );
    assert_eq!(request(&mut env, 10_000, 3, token()), Ok(()));
    due(&mut env);
    assert_eq!(QuorumCreditContract::repay(&mut env, borrower(), 10_200), Ok(()));
    let effects = due(&mut env);
    assert_eq!(effects[2], transfer(contract(), account(10), 67));
    assert_eq!(effects[3], transfer(contract(), account(11), 67));
    assert_eq!(effects[4], transfer(contract(), account(12), 67));
}

#[test]
fn stakes_that_come_to_nothing_earn_nothing() {
    let mut env = ready();
    env.ledger.set_vouches(borrower(), vec![vouch(10, token(), 0)]);
    assert_eq!(request(&mut env, 10_000, 0, token()), Ok(()));
    due(&mut env);
    assert_eq!(QuorumCreditContract::repay(&mut env, borrower(), 10_200), Ok(()));
    assert_eq!(due(&mut env)[2], transfer(contract(), account(10), 0));
}

#[test]
fn payments_add_up() {
    let mut twice = lent();
    let mut once = lent();
    assert_eq!(QuorumCreditContract::repay(&mut twice, borrower(), 3_000), Ok(()));
    assert_eq!(QuorumCreditContract::repay(&mut twice, borrower(), 7_200), Ok(()));
    assert_eq!(QuorumCreditContract::repay(&mut once, borrower(), 10_200), Ok(()));
    assert_eq!(twice.ledger.loan(1), once.ledger.loan(1));
    assert_eq!(twice.ledger.active_loan_id(borrower()), once.ledger.active_loan_id(borrower()));
    assert_eq!(twice.ledger.vouches(borrower()), once.ledger.vouches(borrower()));
    let twice = due(&mut twice);
    let once = due(&mut once);
    assert_eq!(twice[1], transfer(borrower(), contract(), 3_000));
    assert_eq!(twice[3], transfer(borrower(), contract(), 7_200));
    assert_eq!(once[1], transfer(borrower(), contract(), 10_200));
    assert_eq!(twice[4..], once[2..]);
}

#[test]
fn payments_are_refused_in_order() {
    let mut env = ready();
    env.not_paused = Err(PAUSED);
    assert_eq!(QuorumCreditContract::repay(&mut env, borrower(), 0), Err(PAUSED));
    env.not_paused = Ok(());
    assert_eq!(QuorumCreditContract::repay(&mut env, borrower(), 0), Err(ContractError::NoActiveLoan));

    let mut env = lent();
    env.admitted_tokens = vec![other_token()];
    assert_eq!(QuorumCreditContract::repay(&mut env, borrower(), 0), Err(ContractError::InvalidAmount));
    assert_eq!(QuorumCreditContract::repay(&mut env, borrower(), -5), Err(ContractError::InvalidAmount));
    assert_eq!(
        QuorumCreditContract::repay(&mut env, borrower(), 10_201),
        Err(ContractError::InvalidAmount)
    );
    assert_eq!(QuorumCreditContract::repay(&mut env, borrower(), 10_200), Err(BAD_TOKEN));
    assert_eq!(QuorumCreditContract::get_loan(&env, borrower()).unwrap().amount_repaid, 0);
    assert_eq!(due(&mut env).len(), 4);
}

#[test]
fn repayment_with_an_amount_that_does_not_fit_has_no_answer() {
    let mut env = lent();
    let mut loan = QuorumCreditContract::get_loan(&env, borrower()).unwrap();
    loan.total_yield = i128::MAX;
    env.ledger.set_loan(1, loan);
    assert_eq!(QuorumCreditContract::try_repay(&mut env, borrower(), 1), None);
    assert_eq!(QuorumCreditContract::try_repay(&mut env, borrower(), 0), Some(Err(ContractError::InvalidAmount)));
    assert_eq!(due(&mut env), vec![auth(borrower())]);
}

#[test]
fn borrower_can_ask_again_after_closing_a_loan() {
    let mut env = lent();
    assert_eq!(request(&mut env, 100, 0, token()), Err(ContractError::ActiveLoanExists));
    assert_eq!(QuorumCreditContract::repay(&mut env, borrower(), 10_200), Ok(()));
    assert_eq!(request(&mut env, 100, 0, token()), Ok(()));
    assert_eq!(QuorumCreditContract::get_loan(&env, borrower()).unwrap().id, 2);
    assert_eq!(env.ledger.loan(1).unwrap().status, LoanStatus::Repaid);
}

#[test]
fn batch_is_processed_in_order() {
    let mut env = lent();
    let r = QuorumCreditContract::batch_repay(
        &mut env,
        vec![borrower(), borrower()],
        vec![200, 10_000],
    );
    assert_eq!(r, Ok(()));
    assert_eq!(env.ledger.loan(1).unwrap().status, LoanStatus::Repaid);
    assert_eq!(
        due(&mut env),
        vec![
            auth(borrower()),
            transfer(borrower(), contract(), 200),
            publish(Event::BatchPayment { borrower: borrower(), payment: 200 }),
            auth(borrower()),
            transfer(borrower(), contract(), 10_000),
            transfer(contract(), account(10), 3_060),
            transfer(contract(), account(12), 7_140),
            Effect::ProcessWithdrawalQueue { borrower: borrower() },
            publish(Event::LoanRepaid { borrower: borrower(), amount: 10_000 }),
            publish(Event::BatchPayment { borrower: borrower(), payment: 10_000 }),
        ]
    );
}

#[test]
fn batch_stops_at_the_first_refusal_and_keeps_what_came_before() {
    let mut env = lent();
    let r = QuorumCreditContract::batch_repay(
        &mut env,
        vec![borrower(), account(2), borrower()],
        vec![200, 5, 300],
    );
    assert_eq!(r, Err(ContractError::NoActiveLoan));
    assert_eq!(QuorumCreditContract::get_loan(&env, borrower()).unwrap().amount_repaid, 200);
    assert_eq!(
        due(&mut env),
        vec![
            auth(borrower()),
            transfer(borrower(), contract(), 200),
            publish(Event::BatchPayment { borrower: borrower(), payment: 200 }),
            auth(account(2)),
        ]
    );
}

#[test]
fn batch_entries_store_what_repayments_store() {
    let mut batch = lent();
    let mut single = lent();
    assert_eq!(
        QuorumCreditContract::batch_repay(&mut batch, vec![borrower()], vec![123]),
        Ok(())
    );
    assert_eq!(QuorumCreditContract::repay(&mut single, borrower(), 123), Ok(()));
    assert_eq!(batch.ledger.loan(1), single.ledger.loan(1));
}

#[test]
fn batch_shape_is_checked() {
    let mut env = lent();
    assert_eq!(
        QuorumCreditContract::batch_repay(&mut env, vec![], vec![]),
        Err(ContractError::InvalidAmount)
    );
    assert_eq!(
        QuorumCreditContract::batch_repay(&mut env, vec![borrower()], vec![]),
        Err(ContractError::InvalidAmount)
    );
    assert_eq!(
        QuorumCreditContract::batch_repay(&mut env, vec![borrower()], vec![1, 2]),
        Err(ContractError::InvalidAmount)
    );
    env.not_paused = Err(PAUSED);
    assert_eq!(QuorumCreditContract::batch_repay(&mut env, vec![], vec![1]), Err(PAUSED));
    assert_eq!(due(&mut env), vec![]);
}

#[test]
fn batch_entry_that_does_not_fit_ends_the_batch_without_an_answer() {
    let mut env = lent();
    let mut loan = QuorumCreditContract::get_loan(&env, borrower()).unwrap();
    loan.borrower = account(2);
    loan.id = 2;
    loan.total_yield = i128::MAX;
    env.ledger.set_loan(2, loan);
    env.ledger.set_active_loan_id(account(2), 2);
    let r = QuorumCreditContract::try_batch_repay(
        &mut env,
        &vec![borrower(), account(2)],
        &vec![100, 100],
    );
    assert_eq!(r, None);
    assert_eq!(env.ledger.loan(1).unwrap().amount_repaid, 100);
    assert_eq!(env.ledger.loan(2).unwrap().amount_repaid, 0);
}

#[test]
fn partial_default_slashes_in_proportion_to_what_is_unpaid() {
    let mut env = overdue(8_000, 2_550);
    // A quarter is repaid, so the rate is three quarters of 5,000.
    assert_eq!(QuorumCreditContract::mark_partial_default(&mut env, Ok(()), borrower()), Ok(()));
    let total_slashed: i128 = 1_125 + 2_625;
    assert_eq!(
        QuorumCreditContract::get_slash_record(&env, 1),
        Some(SlashRecord {
            loan_id: 1,
            borrower: borrower(),
            total_slashed,
            slash_timestamp: LATE,
            forgiven: false,
            forgiveness_reason: String::new(),
            forgiven_at: 0,
        })
    );
    assert_eq!(QuorumCreditContract::get_partial_default_count(&env, borrower()), 1);
    assert_eq!(QuorumCreditContract::get_loan(&env, borrower()), None);
    assert_eq!(QuorumCreditContract::get_vouches(&env, borrower()), vec![]);
    assert_eq!(env.ledger.loan(1).unwrap().status, LoanStatus::PartialDefault);
    assert_eq!(env.ledger.loan(1).unwrap().amount_repaid, 2_550);
    assert_eq!(
        due(&mut env),
        vec![
            transfer(contract(), account(10), 1_875),
            transfer(contract(), account(12), 4_375),
            publish(Event::PartialDefault { borrower: borrower(), total_slashed }),
        ]
    );
}

#[test]
fn stake_with_nothing_left_is_passed_over() {
    let mut env = overdue(1, 1);
    let mut terms = config(1);
    terms.slash_bps = 10_000;
    env.ledger.set_config(terms);
    assert_eq!(QuorumCreditContract::mark_partial_default(&mut env, Ok(()), borrower()), Ok(()));
    assert_eq!(
        due(&mut env),
        vec![publish(Event::PartialDefault { borrower: borrower(), total_slashed: 10_000 })]
    );
}

#[test]
fn partial_defaults_are_refused_in_order() {
    // Disabled.
    let mut env = overdue(0, 1);
    env.not_paused = Err(PAUSED);
    assert_eq!(
        QuorumCreditContract::mark_partial_default(&mut env, Err(NOT_APPROVED), account(2)),
        Err(PAUSED)
    );
    env.not_paused = Ok(());
    assert_eq!(
        QuorumCreditContract::mark_partial_default(&mut env, Err(NOT_APPROVED), account(2)),
        Err(NOT_APPROVED)
    );
    assert_eq!(
        QuorumCreditContract::mark_partial_default(&mut env, Ok(()), account(2)),
        Err(ContractError::InvalidStateTransition)
    );
    assert_eq!(
        QuorumCreditContract::mark_partial_default(&mut env, Ok(()), borrower()),
        Err(ContractError::InvalidStateTransition)
    );

    let mut env = overdue(2_500, 2_549);
    assert_eq!(
        QuorumCreditContract::mark_partial_default(&mut env, Ok(()), account(2)),
        Err(ContractError::NoActiveLoan)
    );
    env.admitted_tokens = vec![];
    assert_eq!(
        QuorumCreditContract::mark_partial_default(&mut env, Ok(()), borrower()),
        Err(BAD_TOKEN)
    );
    env.admitted_tokens = vec![token()];
    assert_eq!(QuorumCreditContract::repay(&mut env, borrower(), 1), Ok(()));
    // Exactly the threshold is repaid.
    assert_eq!(
        QuorumCreditContract::mark_partial_default(&mut env, Ok(()), borrower()),
        Err(ContractError::InvalidStateTransition)
    );
    let mut loan = QuorumCreditContract::get_loan(&env, borrower()).unwrap();
    loan.amount_repaid = 2_549;
    loan.status = LoanStatus::Defaulted;
    env.ledger.set_loan(1, loan);
    assert_eq!(
        QuorumCreditContract::mark_partial_default(&mut env, Ok(()), borrower()),
        Err(ContractError::InvalidStateTransition)
    );
    assert_eq!(QuorumCreditContract::get_slash_record(&env, 1), None);
    assert_eq!(QuorumCreditContract::get_partial_default_count(&env, borrower()), 0);
    let mut loan = QuorumCreditContract::get_loan(&env, borrower()).unwrap();
    loan.status = LoanStatus::Active;
    env.ledger.set_loan(1, loan);
    assert_eq!(QuorumCreditContract::mark_partial_default(&mut env, Ok(()), borrower()), Ok(()));
}

#[test]
fn loan_is_not_marked_before_its_deadline_has_passed() {
    let mut env = overdue(2_500, 1_020);
    for timestamp in [0, NOW, NOW + 999, NOW + 1_000] {
        env.timestamp = timestamp;
        assert_eq!(
            QuorumCreditContract::mark_partial_default(&mut env, Ok(()), borrower()),
            Err(ContractError::InvalidStateTransition)
        );
        assert_eq!(
            QuorumCreditContract::get_loan(&env, borrower()).unwrap().status,
            LoanStatus::Active
        );
        assert_eq!(QuorumCreditContract::get_vouches(&env, borrower()).len(), 3);
        assert_eq!(QuorumCreditContract::get_slash_record(&env, 1), None);
        assert_eq!(QuorumCreditContract::get_partial_default_count(&env, borrower()), 0);
        assert_eq!(due(&mut env), vec![]);
    }
    env.timestamp = NOW + 1_001;
    assert_eq!(QuorumCreditContract::mark_partial_default(&mut env, Ok(()), borrower()), Ok(()));
    assert_eq!(env.ledger.loan(1).unwrap().status, LoanStatus::PartialDefault);
}

#[test]
fn loan_is_not_marked_with_nothing_repaid() {
    let mut env = lent_with_threshold(2_500);
    env.timestamp = LATE;
    assert_eq!(
        QuorumCreditContract::mark_partial_default(&mut env, Ok(()), borrower()),
        Err(ContractError::InvalidStateTransition)
    );
    assert_eq!(
        QuorumCreditContract::get_loan(&env, borrower()).unwrap().status,
        LoanStatus::Active
    );
    assert_eq!(QuorumCreditContract::get_vouches(&env, borrower()).len(), 3);
    assert_eq!(QuorumCreditContract::get_slash_record(&env, 1), None);
    assert_eq!(QuorumCreditContract::get_partial_default_count(&env, borrower()), 0);
    assert_eq!(due(&mut env), vec![]);
    assert_eq!(QuorumCreditContract::repay(&mut env, borrower(), 1), Ok(()));
    assert_eq!(QuorumCreditContract::mark_partial_default(&mut env, Ok(()), borrower()), Ok(()));
}

#[test]
fn slash_that_does_not_fit_has_no_answer() {
    let mut env = overdue(2_500, 1);
    env.ledger.set_vouches(borrower(), vec![vouch(10, token(), i128::MAX)]);
    assert_eq!(QuorumCreditContract::try_mark_partial_default(&mut env, Ok(()), borrower()), None);
    env.ledger.set_vouches(borrower(), vec![]);
    env.ledger.set_partial_default_count(borrower(), u32::MAX);
    assert_eq!(QuorumCreditContract::try_mark_partial_default(&mut env, Ok(()), borrower()), None);
    assert_eq!(QuorumCreditContract::get_loan(&env, borrower()).unwrap().status, LoanStatus::Active);
}

#[test]
fn partial_default_is_forgiven_once() {
    let mut env = overdue(2_500, 1);
    env.ledger.set_default_count(borrower(), 2);
    assert_eq!(QuorumCreditContract::mark_partial_default(&mut env, Ok(()), borrower()), Ok(()));
    due(&mut env);
    env.timestamp = LATE + 7;
    let r = QuorumCreditContract::forgive_default(
        &mut env,
        Ok(()),
        borrower(),
        1,
        String::from("flood"),
    );
    assert_eq!(r, Ok(()));
    assert_eq!(
        QuorumCreditContract::get_slash_record(&env, 1),
        Some(SlashRecord {
            loan_id: 1,
            borrower: borrower(),
            total_slashed: 5_000,
            slash_timestamp: LATE,
            forgiven: true,
            forgiveness_reason: String::from("flood"),
            forgiven_at: LATE + 7,
        })
    );
    assert_eq!(env.ledger.loan(1).unwrap().status, LoanStatus::ForgivenDefault);
    assert_eq!(env.ledger.default_count(borrower()), Some(1));
    assert_eq!(QuorumCreditContract::get_partial_default_count(&env, borrower()), 1);
    assert_eq!(
        due(&mut env),
        vec![publish(Event::DefaultForgiven {
            borrower: borrower(),
            loan_id: 1,
            reason: String::from("flood"),
        })]
    );
    let r = QuorumCreditContract::forgive_default(&mut env, Ok(()), borrower(), 1, String::new());
    assert_eq!(r, Err(ContractError::InvalidStateTransition));
    assert_eq!(env.ledger.default_count(borrower()), Some(1));
}

#[test]
fn default_without_a_slash_record_gets_one_when_forgiven() {
    let mut env = lent();
    let mut loan = QuorumCreditContract::get_loan(&env, borrower()).unwrap();
    loan.status = LoanStatus::Defaulted;
    env.ledger.set_loan(1, loan);
    let r = QuorumCreditContract::forgive_default(
        &mut env,
        Ok(()),
        borrower(),
        1,
        String::from("illness"),
    );
    assert_eq!(r, Ok(()));
    assert_eq!(
        QuorumCreditContract::get_slash_record(&env, 1),
        Some(SlashRecord {
            loan_id: 1,
            borrower: borrower(),
            total_slashed: 0,
            slash_timestamp: 0,
            forgiven: true,
            forgiveness_reason: String::from("illness"),
            forgiven_at: NOW,
        })
    );
    assert_eq!(env.ledger.default_count(borrower()), None);
}

#[test]
fn forgiveness_is_refused_in_order() {
    let mut env = lent();
    env.not_paused = Err(PAUSED);
    let r = QuorumCreditContract::forgive_default(
        &mut env,
        Err(NOT_APPROVED),
        account(2),
        9,
        String::new(),
    );
    assert_eq!(r, Err(PAUSED));
    env.not_paused = Ok(());
    let r = QuorumCreditContract::forgive_default(
        &mut env,
        Err(NOT_APPROVED),
        account(2),
        9,
        String::new(),
    );
    assert_eq!(r, Err(NOT_APPROVED));
    let r = QuorumCreditContract::forgive_default(&mut env, Ok(()), account(2), 9, String::new());
    assert_eq!(r, Err(ContractError::NoActiveLoan));
    let r = QuorumCreditContract::forgive_default(&mut env, Ok(()), account(2), 1, String::new());
    assert_eq!(r, Err(ContractError::UnauthorizedCaller));
    let r = QuorumCreditContract::forgive_default(&mut env, Ok(()), borrower(), 1, String::new());
    assert_eq!(r, Err(ContractError::InvalidStateTransition));
    assert_eq!(due(&mut env), vec![]);
}

#[test]
fn vouches_are_read_back() {
    let env = backed();
    assert!(QuorumCreditContract::vouch_exists(&env, account(10), borrower()));
    assert!(QuorumCreditContract::vouch_exists(&env, account(11), borrower()));
    assert!(!QuorumCreditContract::vouch_exists(&env, account(13), borrower()));
    assert!(!QuorumCreditContract::vouch_exists(&env, account(10), account(2)));
    assert_eq!(
        QuorumCreditContract::get_vouches(&env, borrower()),
        vec![
            vouch(10, token(), 3_000),
            vouch(11, other_token(), 999),
            vouch(12, token(), 7_000),
        ]
    );
    assert_eq!(QuorumCreditContract::get_vouches(&env, account(2)), vec![]);
    assert_eq!(QuorumCreditContract::get_loan(&env, borrower()), None);
    assert_eq!(QuorumCreditContract::get_partial_default_count(&env, borrower()), 0);
    assert_eq!(QuorumCreditContract::get_slash_record(&env, 1), None);
}

#[test]
fn other_borrowers_are_untouched() {
    let mut env = overdue(2_500, 1);
    env.ledger.set_vouches(account(2), vec![vouch(20, token(), 5)]);
    let r = QuorumCreditContract::request_loan(
        &mut env,
        account(2),
        100,
        5,
        String::from("van"),
        token(),
    );
    assert_eq!(r, Ok(()));
    let before = QuorumCreditContract::get_loan(&env, account(2));
    assert_eq!(QuorumCreditContract::mark_partial_default(&mut env, Ok(()), borrower()), Ok(()));
    assert_eq!(QuorumCreditContract::get_loan(&env, account(2)), before);
    assert_eq!(QuorumCreditContract::get_vouches(&env, account(2)), vec![vouch(20, token(), 5)]);
    assert_eq!(QuorumCreditContract::get_partial_default_count(&env, account(2)), 0);
}

#[test]
fn an_account_and_a_contract_of_one_number_are_two_addresses() {
    let mut env = backed();
    let twin = Address { is_contract: true, high: 7, low: 1 };
    assert_eq!(QuorumCreditContract::get_vouches(&env, twin), vec![]);
    env.ledger.remove_vouches(twin);
    assert_eq!(QuorumCreditContract::get_vouches(&env, borrower()).len(), 3);
}

#[test]
fn events_have_their_topics() {
    let who = borrower();
    let topics = [
        (Event::LoanCreated { borrower: who, amount: 1 }, "created"),
        (Event::LoanRepaid { borrower: who, amount: 1 }, "repaid"),
        (Event::BatchPayment { borrower: who, payment: 1 }, "batch_pay"),
        (Event::PartialDefault { borrower: who, total_slashed: 1 }, "part_def"),
        (Event::DefaultForgiven { borrower: who, loan_id: 1, reason: String::new() }, "forgiven"),
    ];
    for (event, topic) in topics {
        assert_eq!(event.topics(), ("loan", topic));
    }
}

#[test]
fn stored_entries_replace_each_other() {
    let mut ledger = Ledger::new();
    ledger.set_active_loan_id(account(1), 1);
    ledger.set_active_loan_id(account(2), 2);
    ledger.set_active_loan_id(account(1), 3);
    assert_eq!(ledger.active_loan_id(account(1)), Some(3));
    assert_eq!(ledger.active_loan_id(account(2)), Some(2));
    ledger.remove_active_loan_id(account(1));
    assert_eq!(ledger.active_loan_id(account(1)), None);
    assert_eq!(ledger.active_loan_id(account(2)), Some(2));
}
