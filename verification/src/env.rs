//! What one invocation sees of its host, and what it asks of it.

use vstd::prelude::*;

use crate::ledger::{Ledger, LedgerView};
use crate::types::{Address, ContractError};

verus! {

/// An event that the contract publishes.
#[derive(Debug, PartialEq)]
pub enum Event {
    LoanCreated { borrower: Address, amount: i128 },
    LoanRepaid { borrower: Address, amount: i128 },
    BatchPayment { borrower: Address, payment: i128 },
    PartialDefault { borrower: Address, total_slashed: i128 },
    DefaultForgiven { borrower: Address, loan_id: u64, reason: String },
}

#[verifier::ext_equal]
pub enum EventView {
    LoanCreated { borrower: Address, amount: i128 },
    LoanRepaid { borrower: Address, amount: i128 },
    BatchPayment { borrower: Address, payment: i128 },
    PartialDefault { borrower: Address, total_slashed: i128 },
    DefaultForgiven { borrower: Address, loan_id: u64, reason: Seq<char> },
}

impl View for Event {
    type V = EventView;

    open spec fn view(&self) -> EventView {
        match *self {
            Event::LoanCreated { borrower, amount } => EventView::LoanCreated { borrower, amount },
            Event::LoanRepaid { borrower, amount } => EventView::LoanRepaid { borrower, amount },
            Event::BatchPayment { borrower, payment } => EventView::BatchPayment {
                borrower,
                payment,
            },
            Event::PartialDefault { borrower, total_slashed } => EventView::PartialDefault {
                borrower,
                total_slashed,
            },
            Event::DefaultForgiven { borrower, loan_id, reason } => EventView::DefaultForgiven {
                borrower,
                loan_id,
                reason: reason@,
            },
        }
    }
}

impl EventView {
    /// The second topic of the event.
    pub open spec fn topic(self) -> Seq<char> {
        match self {
            EventView::LoanCreated { .. } => "created"@,
            EventView::LoanRepaid { .. } => "repaid"@,
            EventView::BatchPayment { .. } => "batch_pay"@,
            EventView::PartialDefault { .. } => "part_def"@,
            EventView::DefaultForgiven { .. } => "forgiven"@,
        }
    }
}

impl Event {
    /// The two topics that the event is published under.
    pub fn topics(&self) -> (r: (&'static str, &'static str))
        ensures
            r.0@ == "loan"@,
            r.1@ == self@.topic(),
    {
        let second = match self {
            Event::LoanCreated { .. } => "created",
            Event::LoanRepaid { .. } => "repaid",
            Event::BatchPayment { .. } => "batch_pay",
            Event::PartialDefault { .. } => "part_def",
            Event::DefaultForgiven { .. } => "forgiven",
        };
        ("loan", second)
    }
}

/// An action that only the host can carry out.
#[derive(Debug, PartialEq)]
pub enum Effect {
    /// `who` has to have authorised the call.
    RequireAuth { who: Address },
    /// `amount` of `token` moves between two accounts.
    Transfer { token: Address, from: Address, to: Address, amount: i128 },
    /// The withdrawals queued against `borrower` are processed.
    ProcessWithdrawalQueue { borrower: Address },
    /// An event is published.
    Publish { event: Event },
}

#[verifier::ext_equal]
pub enum EffectView {
    RequireAuth { who: Address },
    Transfer { token: Address, from: Address, to: Address, amount: i128 },
    ProcessWithdrawalQueue { borrower: Address },
    Publish { event: EventView },
}

impl View for Effect {
    type V = EffectView;

    open spec fn view(&self) -> EffectView {
        match *self {
            Effect::RequireAuth { who } => EffectView::RequireAuth { who },
            Effect::Transfer { token, from, to, amount } => EffectView::Transfer {
                token,
                from,
                to,
                amount,
            },
            Effect::ProcessWithdrawalQueue { borrower } => EffectView::ProcessWithdrawalQueue {
                borrower,
            },
            Effect::Publish { event } => EffectView::Publish { event: event@ },
        }
    }
}

/// The actions due, in the order in which they are due.
pub struct Outbox {
    effects: Vec<Effect>,
}

impl View for Outbox {
    type V = Seq<EffectView>;

    closed spec fn view(&self) -> Seq<EffectView> {
        self.effects@.map_values(|effect: Effect| effect@)
    }
}

impl Outbox {
    pub fn new() -> (r: Self)
        ensures
            r@ == Seq::<EffectView>::empty(),
    {
        let r = Outbox { effects: Vec::new() };
        assert(r@ =~= Seq::<EffectView>::empty());
        r
    }

    pub fn push(&mut self, effect: Effect)
        ensures
            final(self)@ == old(self)@.push(effect@),
    {
        self.effects.push(effect);
        assert(self@ =~= old(self)@.push(effect@));
    }

    /// Hands the actions out.
    pub fn into_effects(self) -> (r: Vec<Effect>)
        ensures
            r@.map_values(|effect: Effect| effect@) == self@,
    {
        self.effects
    }
}

/// One invocation of the contract.
pub struct Env {
    /// What is stored.
    pub ledger: Ledger,
    /// What is to be done.
    pub outbox: Outbox,
    /// The address of the contract itself.
    pub contract: Address,
    /// The time of the ledger that the call runs in.
    pub timestamp: u64,
    /// The host's answer on whether the contract runs or is paused.
    pub not_paused: Result<(), ContractError>,
    /// The tokens that the host's token list admits, among those that the call
    /// can come upon.
    pub admitted_tokens: Vec<Address>,
    /// The host's answer for any other token.
    pub token_refusal: ContractError,
}

#[verifier::ext_equal]
pub struct EnvView {
    pub ledger: LedgerView,
    pub outbox: Seq<EffectView>,
    pub contract: Address,
    pub timestamp: u64,
    pub not_paused: Result<(), ContractError>,
    pub admitted_tokens: Seq<Address>,
    pub token_refusal: ContractError,
}

impl View for Env {
    type V = EnvView;

    open spec fn view(&self) -> EnvView {
        EnvView {
            ledger: self.ledger@,
            outbox: self.outbox@,
            contract: self.contract,
            timestamp: self.timestamp,
            not_paused: self.not_paused,
            admitted_tokens: self.admitted_tokens@,
            token_refusal: self.token_refusal,
        }
    }
}

impl EnvView {
    /// The same invocation with one more action due.
    pub open spec fn emit(self, effect: EffectView) -> Self {
        EnvView { outbox: self.outbox.push(effect), ..self }
    }

    /// The same invocation with more actions due.
    pub open spec fn emit_all(self, effects: Seq<EffectView>) -> Self {
        EnvView { outbox: self.outbox + effects, ..self }
    }

    /// The same invocation over other stored entries.
    pub open spec fn with_ledger(self, ledger: LedgerView) -> Self {
        EnvView { ledger, ..self }
    }

    pub open spec fn admits(self, token: Address) -> bool {
        self.admitted_tokens.contains(token)
    }

    /// The host's answer on `token`.
    pub open spec fn token_check(self, token: Address) -> Result<(), ContractError> {
        if self.admits(token) {
            Ok(())
        } else {
            Err(self.token_refusal)
        }
    }
}

impl Env {
    /// The host's answer on `token`.
    pub fn require_allowed_token(&self, token: Address) -> (r: Result<(), ContractError>)
        ensures
            r == self@.token_check(token),
    {
        for i in 0..self.admitted_tokens.len()
            invariant
                forall|j: int| 0 <= j < i ==> self.admitted_tokens@[j] != token,
        {
            if self.admitted_tokens[i] == token {
                assert(self.admitted_tokens@.contains(token));
                return Ok(());
            }
        }
        Err(self.token_refusal)
    }
}

} // verus!
