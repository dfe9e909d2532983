use quorum_credit::{
    Address, Config, ContractError, Defaults, Effect, Env, Event, Ledger, LoanStatus, Outbox,
    QuorumCreditContract, VouchRecord,
};

const NOW: u64 = 5_000;
/// The first instant after the deadline of a loan that was made at `NOW`.
const LATE: u64 = 6_001;
const PAUSED: ContractError = ContractError::Code(90);
const BAD_TOKEN: ContractError = ContractError::Code(91);

fn account(n: u128) -> Address {
    Address { is_contract: false, high: 7, low: n }
}

fn token() -> Address {
    Address { is_contract: true, high: 1, low: 1 }
}

fn other_token() -> Address {
    Address { is_contract: true, high: 1, low: 2 }
}

fn contract() -> Address {
    Address { is_contract: true, high: 9, low: 9 }
}

fn borrower() -> Address {
    account(1)
}

fn defaults() -> Defaults {
    Defaults {
        yield_bps: 200,
        slash_bps: 5_000,
        max_vouchers: 100,
        min_loan_amount: 100,
        loan_duration: 1_000,
        max_loan_to_stake_ratio: 150,
        min_vouch_age_secs: 60,
        liquidity_mining_rate_bps: 10,
    }
}

fn blank() -> Env {
    Env {
        ledger: Ledger::new(),
        outbox: Outbox::new(),
        contract: contract(),
        timestamp: NOW,
        not_paused: Ok(()),
        admitted_tokens: vec![token(), other_token()],
        token_refusal: BAD_TOKEN,
    }
}

/// A contract that has been set up, with nothing due.
fn ready() -> Env {
    let mut env = blank();
    let admins = vec![account(50), account(51), account(52)];
    let r = QuorumCreditContract::initialize(&mut env, account(40), admins, 2, token(), defaults());
    assert_eq!(r, Ok(()));
    env.outbox = Outbox::new();
    env
}

fn vouch(voucher: u128, token: Address, stake: i128) -> VouchRecord {
    VouchRecord { voucher: account(voucher), token, stake }
}

/// A contract with stakes of 3,000 and 7,000 behind the borrower, and one in
/// another token.
fn backed() -> Env {
    let mut env = ready();
    env.ledger.set_vouches(
        borrower(),
        vec![
            vouch(10, token(), 3_000),
            vouch(11, other_token(), 999),
            vouch(12, token(), 7_000),
        ],
    );
    env
}

/// The same with a loan of 10,000 running, which earns 200.
fn lent() -> Env {
    let mut env = backed();
    let r = QuorumCreditContract::request_loan(
        &mut env,
        borrower(),
        10_000,
        10_000,
        String::from("seed"),
        token(),
    );
    assert_eq!(r, Ok(()));
    env.outbox = Outbox::new();
    env
}

/// The same with partial defaults enabled below the given share.
fn lent_with_threshold(threshold: u32) -> Env {
    let mut env = lent();
    env.ledger.set_config(config(threshold));
    env
}

/// The same with so much repaid and the deadline just passed.
fn overdue(threshold: u32, repaid: i128) -> Env {
    let mut env = lent_with_threshold(threshold);
    assert_eq!(QuorumCreditContract::repay(&mut env, borrower(), repaid), Ok(()));
    env.outbox = Outbox::new();
    env.timestamp = LATE;
    env
}

fn config(partial_default_threshold_bps: u32) -> Config {
    Config {
        admins: vec![account(50), account(51), account(52)],
        admin_threshold: 2,
        token: token(),
        allowed_tokens: vec![],
        yield_bps: 200,
        slash_bps: 5_000,
        max_vouchers: 100,
        min_loan_amount: 100,
        loan_duration: 1_000,
        max_loan_to_stake_ratio: 150,
        grace_period: 0,
        min_vouch_age_secs: 60,
        prepayment_penalty_bps: 0,
        liquidity_mining_rate_bps: 10,
        partial_default_threshold_bps,
    }
}

fn due(env: &mut Env) -> Vec<Effect> {
    let outbox = std::mem::replace(&mut env.outbox, Outbox::new());
    outbox.into_effects()
}

fn auth(who: Address) -> Effect {
    Effect::RequireAuth { who }
}

fn transfer(from: Address, to: Address, amount: i128) -> Effect {
    Effect::Transfer { token: token(), from, to, amount }
}

fn request(env: &mut Env, amount: i128, threshold: i128, token: Address) -> Result<(), ContractError> {
    QuorumCreditContract::request_loan(
        env,
        borrower(),
        amount,
        threshold,
        String::from("seed"),
        token,
    )
}

fn snapshot(env: &Env) -> String {
    let mut text = format!("{:?} {:?} {:?}", env.ledger.deployer(), env.ledger.config(), env.ledger.loan_counter());
    for id in 0..4 {
        text = format!("{} {:?} {:?}", text, env.ledger.loan(id), env.ledger.slash_record(id));
    }
    for n in 1..4 {
        let who = account(n);
        text = format!(
            "{} {:?} {:?} {:?} {:?}",
            text,
            env.ledger.active_loan_id(who),
            env.ledger.vouches(who),
            env.ledger.partial_default_count(who),
            env.ledger.default_count(who)
        );
    }
    text
}

#[test]
fn pause_stops_every_call_on_loans() {
    let mut env = lent_with_threshold(5_000);
    env.not_paused = Err(PAUSED);
    let before = snapshot(&env);
    assert_eq!(request(&mut env, 100, 0, token()), Err(PAUSED));
    assert_eq!(QuorumCreditContract::repay(&mut env, borrower(), 1), Err(PAUSED));
    assert_eq!(QuorumCreditContract::batch_repay(&mut env, vec![borrower()], vec![1]), Err(PAUSED));
    assert_eq!(QuorumCreditContract::mark_partial_default(&mut env, Ok(()), borrower()), Err(PAUSED));
    let r = QuorumCreditContract::forgive_default(&mut env, Ok(()), borrower(), 1, String::new());
    assert_eq!(r, Err(PAUSED));
    assert_eq!(snapshot(&env), before);
    assert_eq!(due(&mut env), vec![auth(borrower()), auth(borrower())]);
}

#[test]
fn refusals_store_nothing() {
    let mut env = lent_with_threshold(5_000);
    let before = snapshot(&env);
    assert!(request(&mut env, 100, 0, token()).is_err());
    assert!(QuorumCreditContract::repay(&mut env, borrower(), 99_999).is_err());
    assert!(QuorumCreditContract::mark_partial_default(&mut env, Ok(()), account(2)).is_err());
    let r = QuorumCreditContract::forgive_default(&mut env, Ok(()), borrower(), 1, String::new());
    assert!(r.is_err());
    assert_eq!(snapshot(&env), before);
}

#[test]
fn batches_can_be_cut() {
    let mut whole = lent();
    let mut cut = lent();
    let who = borrower();
    assert_eq!(
        QuorumCreditContract::batch_repay(&mut whole, vec![who, who, who], vec![10, 20, 99_999]),
        Err(ContractError::InvalidAmount)
    );
    assert_eq!(QuorumCreditContract::batch_repay(&mut cut, vec![who], vec![10]), Ok(()));
    assert_eq!(
        QuorumCreditContract::batch_repay(&mut cut, vec![who, who], vec![20, 99_999]),
        Err(ContractError::InvalidAmount)
    );
    assert_eq!(snapshot(&whole), snapshot(&cut));
    assert_eq!(due(&mut whole), due(&mut cut));
}

#[test]
fn batch_is_one_repayment_after_another() {
    let mut batch = lent();
    let mut single = lent();
    let who = borrower();
    assert_eq!(
        QuorumCreditContract::batch_repay(&mut batch, vec![who, who, account(2)], vec![5, 7, 9]),
        Err(ContractError::NoActiveLoan)
    );
    assert_eq!(QuorumCreditContract::repay(&mut single, who, 5), Ok(()));
    assert_eq!(QuorumCreditContract::repay(&mut single, who, 7), Ok(()));
    assert_eq!(
        QuorumCreditContract::repay(&mut single, account(2), 9),
        Err(ContractError::NoActiveLoan)
    );
    assert_eq!(snapshot(&batch), snapshot(&single));
    let without_batch_events: Vec<Effect> = due(&mut batch)
        .into_iter()
        .filter(|effect| !matches!(effect, Effect::Publish { event: Event::BatchPayment { .. } }))
        .collect();
    assert_eq!(without_batch_events, due(&mut single));
}

#[test]
fn loans_are_never_rewritten() {
    let mut env = overdue(5_000, 50);
    let mut first = env.ledger.loan(1).unwrap().clone();
    assert_eq!(QuorumCreditContract::mark_partial_default(&mut env, Ok(()), borrower()), Ok(()));
    assert_eq!(request(&mut env, 100, 0, token()), Ok(()));
    first.status = LoanStatus::PartialDefault;
    assert_eq!(env.ledger.loan(1), Some(&first));
    let r = QuorumCreditContract::forgive_default(&mut env, Ok(()), borrower(), 1, String::new());
    assert_eq!(r, Ok(()));
    first.status = LoanStatus::ForgivenDefault;
    assert_eq!(env.ledger.loan(1), Some(&first));
    assert_eq!(env.ledger.loan(2).unwrap().status, LoanStatus::Active);
    assert_eq!(env.ledger.loan_counter(), Some(2));
}

#[test]
fn terms_are_fixed() {
    let mut env = overdue(5_000, 50);
    assert_eq!(QuorumCreditContract::mark_partial_default(&mut env, Ok(()), borrower()), Ok(()));
    assert_eq!(env.ledger.config(), Some(&config(5_000)));
    assert_eq!(env.ledger.deployer(), Some(account(40)));
}

#[test]
fn partial_defaults_start_disabled() {
    let mut env = lent();
    assert_eq!(QuorumCreditContract::repay(&mut env, borrower(), 50), Ok(()));
    env.timestamp = LATE;
    assert_eq!(
        QuorumCreditContract::mark_partial_default(&mut env, Ok(()), borrower()),
        Err(ContractError::InvalidStateTransition)
    );
}

#[test]
fn closing_a_loan_is_covered() {
    let mut env = ready();
    let stakes: [i128; 4] = [17, 5, 23, 101];
    let mut vouches = vec![];
    for i in 0..4 {
        vouches.push(vouch(10 + i as u128, token(), stakes[i]));
    }
    env.ledger.set_vouches(borrower(), vouches);
    assert_eq!(request(&mut env, 4_999, 146, token()), Ok(()));
    due(&mut env);
    // The yield is 99 and is cut into 11, 3, 15 and 68.
    assert_eq!(QuorumCreditContract::repay(&mut env, borrower(), 5_098), Ok(()));
    let effects = due(&mut env);
    assert_eq!(effects[1], transfer(borrower(), contract(), 5_098));
    assert_eq!(effects[2], transfer(contract(), account(10), 28));
    assert_eq!(effects[3], transfer(contract(), account(11), 8));
    assert_eq!(effects[4], transfer(contract(), account(12), 38));
    assert_eq!(effects[5], transfer(contract(), account(13), 169));
    let paid: i128 = 28 + 8 + 38 + 169;
    assert!(146 <= paid && paid <= 146 + 99 && 146 + 99 - 4 < paid);
}

#[test]
fn slash_is_conserved() {
    let mut env = ready();
    env.ledger.set_vouches(
        borrower(),
        vec![vouch(10, token(), 7), vouch(11, token(), 1), vouch(12, token(), 1_001)],
    );
    assert_eq!(request(&mut env, 10_000, 0, token()), Ok(()));
    env.ledger.set_config(config(5_000));
    assert_eq!(QuorumCreditContract::repay(&mut env, borrower(), 1), Ok(()));
    env.timestamp = LATE;
    due(&mut env);
    assert_eq!(QuorumCreditContract::mark_partial_default(&mut env, Ok(()), borrower()), Ok(()));
    let slashed = QuorumCreditContract::get_slash_record(&env, 1).unwrap().total_slashed;
    assert_eq!(slashed, 3 + 0 + 500);
    let effects = due(&mut env);
    assert_eq!(effects[0], transfer(contract(), account(10), 4));
    assert_eq!(effects[1], transfer(contract(), account(11), 1));
    assert_eq!(effects[2], transfer(contract(), account(12), 501));
    assert_eq!(slashed + 4 + 1 + 501, 7 + 1 + 1_001);
    // Never more than the full rate takes of the sum, which is rounded once.
    assert_eq!((7 + 1 + 1_001) * 5_000 / 10_000, 504);
    assert!(slashed <= 504);
}

#[test]
fn slash_rate_follows_what_is_unpaid() {
    let mut slashed = vec![];
    for repaid in [1, 1_020, 5_100, 10_199] {
        let mut env = overdue(10_000, repaid);
        assert_eq!(QuorumCreditContract::mark_partial_default(&mut env, Ok(()), borrower()), Ok(()));
        slashed.push(QuorumCreditContract::get_slash_record(&env, 1).unwrap().total_slashed);
    }
    assert_eq!(slashed, vec![5_000, 4_500, 2_500, 0]);
}

#[test]
fn money_is_taken_with_authorisation_only() {
    let mut env = lent();
    assert_eq!(QuorumCreditContract::repay(&mut env, borrower(), 10_200), Ok(()));
    let effects = due(&mut env);
    assert_eq!(effects[0], auth(borrower()));
    for effect in &effects[2..] {
        if let Effect::Transfer { from, .. } = effect {
            assert_eq!(*from, contract());
        }
    }
}

#[test]
fn unlisted_tokens_are_refused_by_the_host_answer() {
    let mut env = lent();
    env.admitted_tokens = vec![];
    assert_eq!(env.require_allowed_token(token()), Err(BAD_TOKEN));
    assert_eq!(
        QuorumCreditContract::batch_repay(&mut env, vec![borrower()], vec![1]),
        Err(BAD_TOKEN)
    );
    env.admitted_tokens = vec![other_token(), token()];
    assert_eq!(env.require_allowed_token(token()), Ok(()));
}

#[test]
fn vouchers_lose_less_the_more_is_repaid() {
    let mut back = vec![];
    for repaid in [1, 1_020, 5_100] {
        let mut env = overdue(10_000, repaid);
        assert_eq!(QuorumCreditContract::mark_partial_default(&mut env, Ok(()), borrower()), Ok(()));
        let effects = due(&mut env);
        for effect in &effects[..2] {
            if let Effect::Transfer { to, amount, .. } = effect {
                back.push((*to, *amount));
            }
        }
    }
    assert_eq!(
        back,
        vec![
            (account(10), 1_500),
            (account(12), 3_500),
            (account(10), 1_650),
            (account(12), 3_850),
            (account(10), 2_250),
            (account(12), 5_250),
        ]
    );
}

#[test]
fn running_loan_stays_open() {
    let mut env = overdue(5_000, 50);
    let r = QuorumCreditContract::request_loan(
        &mut env,
        account(2),
        100,
        0,
        String::new(),
        token(),
    );
    assert_eq!(r, Ok(()));
    assert_eq!(QuorumCreditContract::repay(&mut env, account(2), 1), Ok(()));
    assert_eq!(env.ledger.active_loan_id(account(2)), Some(2));
    assert_eq!(QuorumCreditContract::mark_partial_default(&mut env, Ok(()), borrower()), Ok(()));
    assert_eq!(env.ledger.active_loan_id(borrower()), None);
    assert_eq!(env.ledger.active_loan_id(account(2)), Some(2));
    assert!(env.ledger.has_active_loan(account(2)));
    let r = QuorumCreditContract::request_loan(
        &mut env,
        account(2),
        100,
        0,
        String::new(),
        token(),
    );
    assert_eq!(r, Err(ContractError::ActiveLoanExists));
}

#[test]
fn rounding_holds_back_less_than_one_unit_for_each_stake_in_the_token() {
    let mut env = ready();
    env.ledger.set_vouches(
        borrower(),
        vec![
            vouch(10, token(), 2),
            vouch(11, other_token(), 5),
            vouch(12, token(), 1),
            vouch(13, other_token(), 5),
        ],
    );
    assert_eq!(request(&mut env, 5_000, 3, token()), Ok(()));
    due(&mut env);
    // The yield is 100, of which 66 and 33 are shared out.
    assert_eq!(QuorumCreditContract::repay(&mut env, borrower(), 5_100), Ok(()));
    let effects = due(&mut env);
    assert_eq!(effects[2], transfer(contract(), account(10), 68));
    assert_eq!(effects[3], transfer(contract(), account(12), 34));
    let paid: i128 = 68 + 34;
    assert!(3 + 100 - 2 < paid && paid <= 3 + 100);
}

#[test]
fn batch_refused_in_its_first_part_leaves_the_rest_out() {
    let who = borrower();
    let mut whole = lent();
    let mut first = lent();
    let refusal = Err(ContractError::InvalidAmount);
    let payments = vec![10, 99_999, 20];
    assert_eq!(QuorumCreditContract::batch_repay(&mut whole, vec![who, who, who], payments), refusal);
    let r = QuorumCreditContract::batch_repay(&mut first, vec![who, who], vec![10, 99_999]);
    assert_eq!(r, refusal);
    assert_eq!(snapshot(&whole), snapshot(&first));
    assert_eq!(due(&mut whole), due(&mut first));
}

#[test]
fn batch_publishes_each_payment() {
    let mut env = lent();
    let r = QuorumCreditContract::request_loan(
        &mut env,
        account(2),
        100,
        0,
        String::new(),
        token(),
    );
    assert_eq!(r, Ok(()));
    due(&mut env);
    let who = borrower();
    let r = QuorumCreditContract::batch_repay(
        &mut env,
        vec![who, account(2), who, who],
        vec![200, 102, 10_000, 1],
    );
    assert_eq!(r, Err(ContractError::NoActiveLoan));
    let mut events = vec![];
    for effect in due(&mut env) {
        if let Effect::Publish { event } = effect {
            events.push(event);
        }
    }
    assert_eq!(
        events,
        vec![
            Event::BatchPayment { borrower: who, payment: 200 },
            Event::LoanRepaid { borrower: account(2), amount: 100 },
            Event::BatchPayment { borrower: account(2), payment: 102 },
            Event::LoanRepaid { borrower: who, amount: 10_000 },
            Event::BatchPayment { borrower: who, payment: 10_000 },
        ]
    );
}

#[test]
fn stakes_in_other_tokens_never_change_the_answer() {
    for other in [vec![], vec![i128::MAX, i128::MAX], vec![-5_000, 1]] {
        let mut stakes = vec![vouch(10, token(), 3_000)];
        for stake in other {
            stakes.push(vouch(11, other_token(), stake));
        }
        stakes.push(vouch(12, token(), 7_000));
        let mut env = ready();
        env.ledger.set_vouches(borrower(), stakes);
        assert_eq!(
            request(&mut env, 10_000, 10_001, token()),
            Err(ContractError::InsufficientFunds)
        );
        assert_eq!(request(&mut env, 10_000, 10_000, token()), Ok(()));
        let loan = QuorumCreditContract::get_loan(&env, borrower()).unwrap();
        assert_eq!((loan.id, loan.amount, loan.total_yield), (1, 10_000, 200));
    }
}

#[test]
fn runs_number_loans_and_count_partial_defaults() {
    let mut env = ready();
    env.ledger.set_config(config(5_000));
    let mut numbers = vec![];
    let mut counts = vec![];
    let mut repaid = String::new();
    for round in 0..3 {
        assert_eq!(request(&mut env, 10_000, 0, token()), Ok(()));
        numbers.push(QuorumCreditContract::get_loan(&env, borrower()).unwrap().id);
        let again = request(&mut env, 10_000, 0, token());
        assert_eq!(again, Err(ContractError::ActiveLoanExists));
        assert!(QuorumCreditContract::mark_partial_default(&mut env, Ok(()), borrower()).is_err());
        if round == 1 {
            assert_eq!(QuorumCreditContract::repay(&mut env, borrower(), 10_200), Ok(()));
            repaid = format!("{:?}", env.ledger.loan(2));
        } else {
            assert_eq!(QuorumCreditContract::repay(&mut env, borrower(), 1), Ok(()));
            env.timestamp += 1_001;
            let r = QuorumCreditContract::mark_partial_default(&mut env, Ok(()), borrower());
            assert_eq!(r, Ok(()));
        }
        counts.push(QuorumCreditContract::get_partial_default_count(&env, borrower()));
    }
    assert_eq!(numbers, vec![1, 2, 3]);
    assert_eq!(counts, vec![1, 1, 2]);
    assert_eq!(QuorumCreditContract::get_partial_default_count(&env, account(2)), 0);
    assert_eq!(env.ledger.loan_counter(), Some(3));
    // What was repaid is as it was left.
    assert_eq!(env.ledger.loan(2).unwrap().status, LoanStatus::Repaid);
    assert_eq!(format!("{:?}", env.ledger.loan(2)), repaid);
}
