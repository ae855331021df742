//! The stake ledger: for each hotkey the coldkey that owns it, the stake
//! behind it and the endpoint it serves, and the total of all stake.

use vstd::prelude::*;
use crate::fixed::lemma_sum_entry_le;
use crate::fixed::lemma_sum_push;
use crate::fixed::lemma_sum_take_le;
use crate::fixed::lemma_sum_take_step;
use crate::fixed::lemma_take_all;
use crate::fixed::lemma_sum_update;
use crate::fixed::sum;
use crate::types::AccountId;
use crate::types::Error;
use crate::types::Event;

verus! {

/// The endpoint at which a neuron can be reached.
#[derive(Clone, Copy, Debug, PartialEq, Eq, Structural)]
pub struct Axon {
    /// The version of the endpoint's code.
    pub version: u32,
    /// The address, of version 4 or 6, as a number.
    pub ip: u128,
    pub port: u16,
    /// 4 or 6, for the version of the address.
    pub ip_type: u8,
    /// The kind of data that the endpoint processes.
    pub modality: u8,
}

/// What the ledger holds for one hotkey.
#[derive(Clone, Copy, Debug, PartialEq, Eq, Structural)]
pub struct Account {
    pub hotkey: AccountId,
    /// The coldkey that owns the hotkey and alone may move its stake.
    pub coldkey: AccountId,
    pub stake: u64,
    pub axon: Axon,
}

/// The stake of each account, in order.
pub open spec fn stakes(accounts: Seq<Account>) -> Seq<nat> {
    accounts.map_values(|a: Account| a.stake as nat)
}

/// Whether no hotkey has two accounts.
pub open spec fn distinct_hotkeys(accounts: Seq<Account>) -> bool {
    forall|i: int, j: int|
        0 <= i < accounts.len() && 0 <= j < accounts.len() && accounts[i].hotkey
            == accounts[j].hotkey ==> i == j
}

/// Whether the account at index `i` is that of `hotkey`.
pub open spec fn account_at(accounts: Seq<Account>, i: int, hotkey: AccountId) -> bool {
    0 <= i < accounts.len() && accounts[i].hotkey == hotkey
}

/// The index of the account of `hotkey`, if it has one.
pub open spec fn index_of(accounts: Seq<Account>, hotkey: AccountId) -> Option<int> {
    if exists|i: int| account_at(accounts, i, hotkey) {
        Some(choose|i: int| account_at(accounts, i, hotkey))
    } else {
        None
    }
}

/// The stake behind `hotkey`; zero where it has no account.
pub open spec fn stake_of(accounts: Seq<Account>, hotkey: AccountId) -> u64 {
    match index_of(accounts, hotkey) {
        Some(i) => accounts[i].stake,
        None => 0,
    }
}

/// An endpoint of which nothing is known yet.
pub open spec fn no_axon() -> Axon {
    Axon { version: 0, ip: 0, port: 0, ip_type: 0, modality: 0 }
}

/// The ledger as plain mathematical values.
pub struct LedgerView {
    pub accounts: Seq<Account>,
    pub total_stake: u64,
}

impl LedgerView {
    /// The invariant of the ledger: no hotkey has two accounts, and the
    /// total is the sum of the stake of all accounts.
    pub open spec fn wf(self) -> bool {
        &&& distinct_hotkeys(self.accounts)
        &&& self.total_stake == sum(stakes(self.accounts))
    }

    /// The ledger after an account without stake was opened for `hotkey`.
    pub open spec fn opened(self, hotkey: AccountId, coldkey: AccountId) -> LedgerView {
        LedgerView {
            accounts: self.accounts.push(Account { hotkey, coldkey, stake: 0, axon: no_axon() }),
            ..self
        }
    }

    /// The ledger after `amount` was added to the stake of account `i`.
    pub open spec fn credited(self, i: int, amount: u64) -> LedgerView {
        LedgerView {
            accounts: self.accounts.update(
                i,
                Account { stake: (self.accounts[i].stake + amount) as u64, ..self.accounts[i] },
            ),
            total_stake: (self.total_stake + amount) as u64,
        }
    }

    /// The ledger after `amount` was taken from the stake of account `i`.
    pub open spec fn debited(self, i: int, amount: u64) -> LedgerView {
        LedgerView {
            accounts: self.accounts.update(
                i,
                Account { stake: (self.accounts[i].stake - amount) as u64, ..self.accounts[i] },
            ),
            total_stake: (self.total_stake - amount) as u64,
        }
    }

    /// The ledger after account `i` announced the endpoint `axon`.
    pub open spec fn served(self, i: int, axon: Axon) -> LedgerView {
        LedgerView { accounts: self.accounts.update(i, Account { axon, ..self.accounts[i] }), ..self }
    }

    /// Why stake cannot be added, if it cannot.
    pub open spec fn add_verdict(
        self,
        caller: AccountId,
        hotkey: AccountId,
        amount: u64,
        balance: u64,
    ) -> Option<Error> {
        match index_of(self.accounts, hotkey) {
            None => Some(Error::NotRegistered),
            Some(i) => if self.accounts[i].coldkey != caller {
                Some(Error::NonAssociatedColdKey)
            } else if amount > balance {
                Some(Error::NotEnoughBalanceToStake)
            } else if self.total_stake + amount > u64::MAX {
                Some(Error::StorageOverflow)
            } else {
                None
            },
        }
    }

    /// Why stake cannot be removed, if it cannot.
    pub open spec fn remove_verdict(self, caller: AccountId, hotkey: AccountId, amount: u64) -> Option<
        Error,
    > {
        match index_of(self.accounts, hotkey) {
            None => Some(Error::NotRegistered),
            Some(i) => if self.accounts[i].coldkey != caller {
                Some(Error::NonAssociatedColdKey)
            } else if amount > self.accounts[i].stake {
                Some(Error::NotEnoughStaketoWithdraw)
            } else {
                None
            },
        }
    }
}

/// With distinct hotkeys, the index looked up for a hotkey is the one index
/// at which its account stands.
pub proof fn lemma_index_of(accounts: Seq<Account>, hotkey: AccountId, i: int)
    requires
        distinct_hotkeys(accounts),
    ensures
        index_of(accounts, hotkey) == Some(i) <==> account_at(accounts, i, hotkey),
{
}

/// An account's stake is at most the sum of all stake.
pub proof fn lemma_stake_le_total(l: LedgerView, i: int)
    requires
        l.wf(),
        0 <= i < l.accounts.len(),
    ensures
        l.accounts[i].stake <= l.total_stake,
{
    lemma_sum_entry_le(stakes(l.accounts), i);
}

/// Opening an account without stake keeps the total equal to the sum of
/// all stake.
pub proof fn lemma_opened_wf(l: LedgerView, hotkey: AccountId, coldkey: AccountId)
    requires
        l.wf(),
        index_of(l.accounts, hotkey) is None,
    ensures
        l.opened(hotkey, coldkey).wf(),
{
    let a = Account { hotkey, coldkey, stake: 0, axon: no_axon() };
    assert(stakes(l.accounts.push(a)) =~= stakes(l.accounts).push(0nat));
    lemma_sum_push(stakes(l.accounts), 0nat);
    assert forall|i: int| 0 <= i < l.accounts.len() implies l.accounts[i].hotkey != hotkey by {
        if l.accounts[i].hotkey == hotkey {
            assert(account_at(l.accounts, i, hotkey));
        }
    }
}

/// Adding stake to one account moves the total by the amount added and
/// keeps it equal to the sum of all stake.
pub proof fn lemma_credited_wf(l: LedgerView, i: int, amount: u64)
    requires
        l.wf(),
        0 <= i < l.accounts.len(),
        l.total_stake + amount <= u64::MAX,
    ensures
        l.credited(i, amount).wf(),
        l.credited(i, amount).total_stake == l.total_stake + amount,
        l.credited(i, amount).accounts[i].stake == l.accounts[i].stake + amount,
{
    lemma_stake_le_total(l, i);
    let t = l.credited(i, amount);
    assert(stakes(t.accounts) =~= stakes(l.accounts).update(
        i,
        (l.accounts[i].stake + amount) as nat,
    ));
    lemma_sum_update(stakes(l.accounts), i, (l.accounts[i].stake + amount) as nat);
}

/// Taking stake from one account moves the total by the amount taken and
/// keeps it equal to the sum of all stake.
pub proof fn lemma_debited_wf(l: LedgerView, i: int, amount: u64)
    requires
        l.wf(),
        0 <= i < l.accounts.len(),
        amount <= l.accounts[i].stake,
    ensures
        l.debited(i, amount).wf(),
        l.debited(i, amount).total_stake == l.total_stake - amount,
        l.debited(i, amount).accounts[i].stake == l.accounts[i].stake - amount,
{
    lemma_stake_le_total(l, i);
    let t = l.debited(i, amount);
    assert(stakes(t.accounts) =~= stakes(l.accounts).update(
        i,
        (l.accounts[i].stake - amount) as nat,
    ));
    lemma_sum_update(stakes(l.accounts), i, (l.accounts[i].stake - amount) as nat);
}

/// Announcing an endpoint leaves all stake as it is.
pub proof fn lemma_served_wf(l: LedgerView, i: int, axon: Axon)
    requires
        l.wf(),
        0 <= i < l.accounts.len(),
    ensures
        l.served(i, axon).wf(),
{
    assert(stakes(l.served(i, axon).accounts) =~= stakes(l.accounts));
}

/// The stake ledger.
pub struct Ledger {
    accounts: Vec<Account>,
    total_stake: u64,
}

impl View for Ledger {
    type V = LedgerView;

    closed spec fn view(&self) -> LedgerView {
        LedgerView { accounts: self.accounts@, total_stake: self.total_stake }
    }
}

impl Ledger {
    /// Makes a ledger without accounts.
    pub fn new() -> (l: Ledger)
        ensures
            l@.accounts.len() == 0,
            l@.total_stake == 0,
            l@.wf(),
    {
        Ledger { accounts: Vec::new(), total_stake: 0 }
    }

    /// The sum of all stake.
    pub fn total_stake(&self) -> (t: u64)
        ensures
            t == self@.total_stake,
    {
        self.total_stake
    }

    /// The number of accounts.
    pub fn len(&self) -> (n: usize)
        ensures
            n == self@.accounts.len(),
    {
        self.accounts.len()
    }

    /// Finds the index of the account of `hotkey`.
    pub fn find(&self, hotkey: AccountId) -> (r: Option<usize>)
        requires
            self@.wf(),
        ensures
            match r {
                Some(i) => index_of(self@.accounts, hotkey) == Some(i as int) && i
                    < self@.accounts.len(),
                None => index_of(self@.accounts, hotkey) is None,
            },
    {
        let mut i: usize = 0;
        while i < self.accounts.len()
            invariant
                i <= self.accounts.len(),
                self@.wf(),
                forall|j: int| 0 <= j < i ==> !account_at(self@.accounts, j, hotkey),
            decreases self.accounts.len() - i,
        {
            if self.accounts[i].hotkey == hotkey {
                proof {
                    lemma_index_of(self@.accounts, hotkey, i as int);
                }
                return Some(i);
            }
            i = i + 1;
        }
        None
    }

    /// The account at index `i`.
    pub fn account(&self, i: usize) -> (a: Account)
        requires
            i < self@.accounts.len(),
        ensures
            a == self@.accounts[i as int],
    {
        self.accounts[i]
    }

    /// The stake behind `hotkey`; zero where it has no account.
    pub fn stake_of(&self, hotkey: AccountId) -> (s: u64)
        requires
            self@.wf(),
        ensures
            s == stake_of(self@.accounts, hotkey),
    {
        match self.find(hotkey) {
            Some(i) => self.accounts[i].stake,
            None => 0,
        }
    }

    /// Opens an account without stake for a hotkey that has none.
    pub fn open(&mut self, hotkey: AccountId, coldkey: AccountId)
        requires
            old(self)@.wf(),
            index_of(old(self)@.accounts, hotkey) is None,
        ensures
            final(self)@ == old(self)@.opened(hotkey, coldkey),
            final(self)@.wf(),
    {
        proof {
            lemma_opened_wf(self@, hotkey, coldkey);
        }
        self.accounts.push(
            Account {
                hotkey,
                coldkey,
                stake: 0,
                axon: Axon { version: 0, ip: 0, port: 0, ip_type: 0, modality: 0 },
            },
        );
    }

    /// Adds `amount` to the stake of account `i`.
    pub fn credit(&mut self, i: usize, amount: u64)
        requires
            old(self)@.wf(),
            i < old(self)@.accounts.len(),
            old(self)@.total_stake + amount <= u64::MAX,
        ensures
            final(self)@ == old(self)@.credited(i as int, amount),
            final(self)@.wf(),
    {
        proof {
            lemma_credited_wf(self@, i as int, amount);
        }
        let a: Account = self.accounts[i];
        self.accounts[i] = Account { stake: a.stake + amount, ..a };
        self.total_stake = self.total_stake + amount;
    }

    /// Takes `amount` from the stake of account `i`.
    pub fn debit(&mut self, i: usize, amount: u64)
        requires
            old(self)@.wf(),
            i < old(self)@.accounts.len(),
            amount <= old(self)@.accounts[i as int].stake,
        ensures
            final(self)@ == old(self)@.debited(i as int, amount),
            final(self)@.wf(),
    {
        proof {
            lemma_debited_wf(self@, i as int, amount);
        }
        let a: Account = self.accounts[i];
        self.accounts[i] = Account { stake: a.stake - amount, ..a };
        self.total_stake = self.total_stake - amount;
    }

    /// Records the endpoint that account `i` serves.
    pub fn serve(&mut self, i: usize, axon: Axon)
        requires
            old(self)@.wf(),
            i < old(self)@.accounts.len(),
        ensures
            final(self)@ == old(self)@.served(i as int, axon),
            final(self)@.wf(),
    {
        proof {
            lemma_served_wf(self@, i as int, axon);
        }
        let a: Account = self.accounts[i];
        self.accounts[i] = Account { axon, ..a };
    }

    /// Moves `amount` from the balance of the coldkey `caller`, which holds
    /// `balance`, onto the stake of `hotkey`. The hotkey must have an
    /// account, the caller must be its coldkey, the balance must cover the
    /// amount, and the total stake must stay in range; else nothing changes.
    pub fn add_stake(
        &mut self,
        caller: AccountId,
        hotkey: AccountId,
        amount: u64,
        balance: u64,
    ) -> (r: Result<Event, Error>)
        requires
            old(self)@.wf(),
        ensures
            final(self)@.wf(),
            match old(self)@.add_verdict(caller, hotkey, amount, balance) {
                Some(e) => r == Err::<Event, Error>(e) && final(self)@ == old(self)@,
                None => r == Ok::<Event, Error>(Event::StakeAdded(hotkey, amount)) && final(self)@
                    == old(self)@.credited(index_of(old(self)@.accounts, hotkey).unwrap(), amount),
            },
    {
        let i: usize = match self.find(hotkey) {
            Some(i) => i,
            None => {
                return Err(Error::NotRegistered);
            },
        };
        if self.accounts[i].coldkey != caller {
            return Err(Error::NonAssociatedColdKey);
        }
        if amount > balance {
            return Err(Error::NotEnoughBalanceToStake);
        }
        if amount > u64::MAX - self.total_stake {
            return Err(Error::StorageOverflow);
        }
        self.credit(i, amount);
        Ok(Event::StakeAdded(hotkey, amount))
    }

    /// Moves `amount` from the stake of `hotkey` back to the coldkey
    /// `caller`. The hotkey must have an account, the caller must be its
    /// coldkey, and the stake must cover the amount; else nothing changes.
    pub fn remove_stake(&mut self, caller: AccountId, hotkey: AccountId, amount: u64) -> (r:
        Result<Event, Error>)
        requires
            old(self)@.wf(),
        ensures
            final(self)@.wf(),
            match old(self)@.remove_verdict(caller, hotkey, amount) {
                Some(e) => r == Err::<Event, Error>(e) && final(self)@ == old(self)@,
                None => r == Ok::<Event, Error>(Event::StakeRemoved(hotkey, amount)) && final(self)@
                    == old(self)@.debited(index_of(old(self)@.accounts, hotkey).unwrap(), amount),
            },
    {
        let i: usize = match self.find(hotkey) {
            Some(i) => i,
            None => {
                return Err(Error::NotRegistered);
            },
        };
        if self.accounts[i].coldkey != caller {
            return Err(Error::NonAssociatedColdKey);
        }
        if amount > self.accounts[i].stake {
            return Err(Error::NotEnoughStaketoWithdraw);
        }
        self.debit(i, amount);
        Ok(Event::StakeRemoved(hotkey, amount))
    }
}

/// Tells whether no hotkey has two accounts.
pub fn hotkeys_distinct(accounts: &Vec<Account>) -> (b: bool)
    ensures
        b == distinct_hotkeys(accounts@),
{
    let mut j: usize = 0;
    while j < accounts.len()
        invariant
            j <= accounts.len(),
            forall|x: int, y: int|
                0 <= x < j && 0 <= y < j && accounts@[x].hotkey == accounts@[y].hotkey ==> x == y,
        decreases accounts.len() - j,
    {
        let mut i: usize = 0;
        while i < j
            invariant
                i <= j < accounts.len(),
                forall|x: int| 0 <= x < i ==> accounts@[x].hotkey != accounts@[j as int].hotkey,
            decreases j - i,
        {
            if accounts[i].hotkey == accounts[j].hotkey {
                return false;
            }
            i = i + 1;
        }
        j = j + 1;
    }
    true
}

impl Ledger {
    /// Puts a ledger together from its accounts, if they fit together: no
    /// hotkey has two of them, and all stake together fits in 64 bits.
    pub fn from_parts(accounts: Vec<Account>) -> (r: Option<Ledger>)
        ensures
            match r {
                Some(l) => l@.accounts == accounts@ && l@.wf(),
                None => !distinct_hotkeys(accounts@) || sum(stakes(accounts@)) > u64::MAX,
            },
    {
        if !hotkeys_distinct(&accounts) {
            return None;
        }
        let mut total: u64 = 0;
        let mut i: usize = 0;
        while i < accounts.len()
            invariant
                i <= accounts.len(),
                total == sum(stakes(accounts@).take(i as int)),
            decreases accounts.len() - i,
        {
            proof {
                lemma_sum_take_step(stakes(accounts@), i as int);
                lemma_sum_take_le(stakes(accounts@), i + 1);
            }
            total = match total.checked_add(accounts[i].stake) {
                Some(t) => t,
                None => {
                    return None;
                },
            };
            i = i + 1;
        }
        proof {
            lemma_take_all(stakes(accounts@));
        }
        Some(Ledger { accounts, total_stake: total })
    }

    /// Takes the ledger apart.
    pub fn into_parts(self) -> (accounts: Vec<Account>)
        ensures
            accounts@ == self@.accounts,
    {
        self.accounts
    }

    /// The accounts, in the order in which they were opened.
    pub fn accounts(&self) -> (r: &Vec<Account>)
        ensures
            r@ == self@.accounts,
    {
        &self.accounts
    }
}

} // verus!
