//! What the contract has stored.

use vstd::prelude::*;

use crate::table::Table;
use crate::types::{
    Address, Config, ConfigView, LoanRecord, LoanStatus, LoanView, SlashRecord, SlashView,
    VouchRecord,
};

verus! {

/// The stored entries that a call works on.
///
/// An entry that was never stored, or was removed, is absent; reading it gives
/// `None`.
pub struct Ledger {
    deployer: Option<Address>,
    config: Option<Config>,
    loan_counter: Option<u64>,
    loans: Table<u64, LoanRecord>,
    active_loans: Table<Address, u64>,
    vouches: Table<Address, Vec<VouchRecord>>,
    slash_records: Table<u64, SlashRecord>,
    partial_default_counts: Table<Address, u32>,
    default_counts: Table<Address, u32>,
}

#[verifier::ext_equal]
pub struct LedgerView {
    pub deployer: Option<Address>,
    pub config: Option<ConfigView>,
    /// The number of the latest loan.
    pub loan_counter: Option<u64>,
    pub loans: Map<u64, LoanView>,
    /// The number of each borrower's open loan.
    pub active_loans: Map<Address, u64>,
    pub vouches: Map<Address, Seq<VouchRecord>>,
    pub slash_records: Map<u64, SlashView>,
    pub partial_default_counts: Map<Address, u32>,
    pub default_counts: Map<Address, u32>,
}

impl LedgerView {
    pub open spec fn empty() -> Self {
        LedgerView {
            deployer: None,
            config: None,
            loan_counter: None,
            loans: Map::empty(),
            active_loans: Map::empty(),
            vouches: Map::empty(),
            slash_records: Map::empty(),
            partial_default_counts: Map::empty(),
            default_counts: Map::empty(),
        }
    }

    /// The record of the loan that `borrower` has open.
    pub open spec fn active_loan(self, borrower: Address) -> Option<LoanView> {
        if self.active_loans.contains_key(borrower) && self.loans.contains_key(
            self.active_loans[borrower],
        ) {
            Some(self.loans[self.active_loans[borrower]])
        } else {
            None
        }
    }

    /// Whether `borrower` has an open loan that is running.
    pub open spec fn has_active_loan(self, borrower: Address) -> bool {
        self.active_loan(borrower) matches Some(loan) && loan.status == LoanStatus::Active
    }

    /// The stakes behind `borrower`.
    pub open spec fn vouches_of(self, borrower: Address) -> Seq<VouchRecord> {
        if self.vouches.contains_key(borrower) {
            self.vouches[borrower]
        } else {
            Seq::empty()
        }
    }

    /// How many loans have been numbered.
    pub open spec fn loans_numbered(self) -> u64 {
        match self.loan_counter {
            Some(n) => n,
            None => 0,
        }
    }

    pub open spec fn slash_record(self, loan_id: u64) -> Option<SlashView> {
        if self.slash_records.contains_key(loan_id) {
            Some(self.slash_records[loan_id])
        } else {
            None
        }
    }

    pub open spec fn partial_default_count(self, borrower: Address) -> u32 {
        if self.partial_default_counts.contains_key(borrower) {
            self.partial_default_counts[borrower]
        } else {
            0
        }
    }

    pub open spec fn default_count(self, borrower: Address) -> u32 {
        if self.default_counts.contains_key(borrower) {
            self.default_counts[borrower]
        } else {
            0
        }
    }
}

/// The value under `key`, if there is one.
pub open spec fn entry<K, V>(map: Map<K, V>, key: K) -> Option<V> {
    if map.contains_key(key) {
        Some(map[key])
    } else {
        None
    }
}

impl View for Ledger {
    type V = LedgerView;

    closed spec fn view(&self) -> LedgerView {
        LedgerView {
            deployer: self.deployer,
            config: match self.config {
                Some(config) => Some(config@),
                None => None,
            },
            loan_counter: self.loan_counter,
            loans: self.loans@.map_values(|loan: LoanRecord| loan@),
            active_loans: self.active_loans@,
            vouches: self.vouches@.map_values(|vouches: Vec<VouchRecord>| vouches@),
            slash_records: self.slash_records@.map_values(|record: SlashRecord| record@),
            partial_default_counts: self.partial_default_counts@,
            default_counts: self.default_counts@,
        }
    }
}

impl Ledger {
    /// A ledger in which nothing is stored.
    pub fn new() -> (r: Self)
        ensures
            r@ == LedgerView::empty(),
    {
        Ledger {
            deployer: None,
            config: None,
            loan_counter: None,
            loans: Table::new(),
            active_loans: Table::new(),
            vouches: Table::new(),
            slash_records: Table::new(),
            partial_default_counts: Table::new(),
            default_counts: Table::new(),
        }
    }

    pub fn deployer(&self) -> (r: Option<Address>)
        ensures
            r == self@.deployer,
    {
        self.deployer
    }

    pub fn set_deployer(&mut self, deployer: Address)
        ensures
            final(self)@ == (LedgerView { deployer: Some(deployer), ..old(self)@ }),
    {
        self.deployer = Some(deployer);
    }

    pub fn config(&self) -> (r: Option<&Config>)
        ensures
            r is Some <==> self@.config is Some,
            r matches Some(config) ==> self@.config == Some(config@),
    {
        self.config.as_ref()
    }

    pub fn set_config(&mut self, config: Config)
        ensures
            final(self)@ == (LedgerView { config: Some(config@), ..old(self)@ }),
    {
        self.config = Some(config);
    }

    pub fn loan_counter(&self) -> (r: Option<u64>)
        ensures
            r == self@.loan_counter,
    {
        self.loan_counter
    }

    pub fn set_loan_counter(&mut self, counter: u64)
        ensures
            final(self)@ == (LedgerView { loan_counter: Some(counter), ..old(self)@ }),
    {
        self.loan_counter = Some(counter);
    }

    pub fn loan(&self, loan_id: u64) -> (r: Option<&LoanRecord>)
        ensures
            r is Some <==> self@.loans.contains_key(loan_id),
            r matches Some(loan) ==> loan@ == self@.loans[loan_id],
    {
        self.loans.get(&loan_id)
    }

    pub fn set_loan(&mut self, loan_id: u64, loan: LoanRecord)
        ensures
            final(self)@ == (LedgerView {
                loans: old(self)@.loans.insert(loan_id, loan@),
                ..old(self)@
            }),
    {
        self.loans.insert(loan_id, loan);
    }

    /// The number of the loan that `borrower` has open.
    pub fn active_loan_id(&self, borrower: Address) -> (r: Option<u64>)
        ensures
            r == entry(self@.active_loans, borrower),
    {
        match self.active_loans.get(&borrower) {
            Some(loan_id) => Some(*loan_id),
            None => None,
        }
    }

    pub fn set_active_loan_id(&mut self, borrower: Address, loan_id: u64)
        ensures
            final(self)@ == (LedgerView {
                active_loans: old(self)@.active_loans.insert(borrower, loan_id),
                ..old(self)@
            }),
    {
        self.active_loans.insert(borrower, loan_id);
    }

    pub fn remove_active_loan_id(&mut self, borrower: Address)
        ensures
            final(self)@ == (LedgerView {
                active_loans: old(self)@.active_loans.remove(borrower),
                ..old(self)@
            }),
    {
        self.active_loans.remove(&borrower);
    }

    /// The record of the loan that `borrower` has open.
    pub fn active_loan(&self, borrower: Address) -> (r: Option<&LoanRecord>)
        ensures
            r is Some <==> self@.active_loan(borrower) is Some,
            r matches Some(loan) ==> self@.active_loan(borrower) == Some(loan@),
    {
        match self.active_loan_id(borrower) {
            Some(loan_id) => self.loan(loan_id),
            None => None,
        }
    }

    /// Whether `borrower` has an open loan that is running.
    pub fn has_active_loan(&self, borrower: Address) -> (r: bool)
        ensures
            r == self@.has_active_loan(borrower),
    {
        match self.active_loan(borrower) {
            Some(loan) => loan.status == LoanStatus::Active,
            None => false,
        }
    }

    pub fn vouches(&self, borrower: Address) -> (r: Option<&Vec<VouchRecord>>)
        ensures
            r is Some <==> self@.vouches.contains_key(borrower),
            r matches Some(vouches) ==> vouches@ == self@.vouches[borrower],
    {
        self.vouches.get(&borrower)
    }

    pub fn set_vouches(&mut self, borrower: Address, vouches: Vec<VouchRecord>)
        ensures
            final(self)@ == (LedgerView {
                vouches: old(self)@.vouches.insert(borrower, vouches@),
                ..old(self)@
            }),
    {
        self.vouches.insert(borrower, vouches);
    }

    pub fn remove_vouches(&mut self, borrower: Address)
        ensures
            final(self)@ == (LedgerView {
                vouches: old(self)@.vouches.remove(borrower),
                ..old(self)@
            }),
    {
        self.vouches.remove(&borrower);
    }

    pub fn slash_record(&self, loan_id: u64) -> (r: Option<&SlashRecord>)
        ensures
            r is Some <==> self@.slash_record(loan_id) is Some,
            r matches Some(record) ==> self@.slash_record(loan_id) == Some(record@),
    {
        self.slash_records.get(&loan_id)
    }

    pub fn set_slash_record(&mut self, loan_id: u64, record: SlashRecord)
        ensures
            final(self)@ == (LedgerView {
                slash_records: old(self)@.slash_records.insert(loan_id, record@),
                ..old(self)@
            }),
    {
        self.slash_records.insert(loan_id, record);
    }

    pub fn partial_default_count(&self, borrower: Address) -> (r: Option<u32>)
        ensures
            r == entry(self@.partial_default_counts, borrower),
    {
        match self.partial_default_counts.get(&borrower) {
            Some(count) => Some(*count),
            None => None,
        }
    }

    pub fn set_partial_default_count(&mut self, borrower: Address, count: u32)
        ensures
            final(self)@ == (LedgerView {
                partial_default_counts: old(self)@.partial_default_counts.insert(borrower, count),
                ..old(self)@
            }),
    {
        self.partial_default_counts.insert(borrower, count);
    }

    pub fn default_count(&self, borrower: Address) -> (r: Option<u32>)
        ensures
            r == entry(self@.default_counts, borrower),
    {
        match self.default_counts.get(&borrower) {
            Some(count) => Some(*count),
            None => None,
        }
    }

    pub fn set_default_count(&mut self, borrower: Address, count: u32)
        ensures
            final(self)@ == (LedgerView {
                default_counts: old(self)@.default_counts.insert(borrower, count),
                ..old(self)@
            }),
    {
        self.default_counts.insert(borrower, count);
    }
}

} // verus!
