//! The whole state: the subnetworks, the stake ledger and the global
//! parameters, with the operations that callers reach it through.
//!
//! Every operation checks all that it asks of its input before it changes
//! anything: it either applies in full or reports why it did not and leaves
//! the state as it was.

use vstd::prelude::*;
use crate::config::Config;
use crate::epoch::Hyper;
use crate::fixed::lemma_sum_push;
use crate::fixed::lemma_sum_take_le;
use crate::fixed::lemma_sum_take_step;
use crate::fixed::nats;
use crate::fixed::lemma_sum_update;
use crate::fixed::lemma_take_all;
use crate::fixed::sum;
use crate::fixed::ONE;
use crate::ledger::account_at;
use crate::ledger::index_of;
use crate::ledger::stake_of;
use crate::ledger::Account;
use crate::ledger::Axon;
use crate::ledger::Ledger;
use crate::ledger::LedgerView;
use crate::subnet::hotkey_at;
use crate::subnet::is_free;
use crate::subnet::is_lowest_free;
use crate::subnet::is_prune_target;
use crate::subnet::lemma_vacated_wf;
use crate::subnet::seated_at;
use crate::subnet::uid_of;
use crate::subnet::Subnet;
use crate::subnet::SubnetView;
use crate::types::AccountId;
use crate::types::Error;
use crate::types::Event;
use crate::weights::is_live;
use crate::weights::rows_view;
use crate::weights::lemma_stored_row_wf;
use crate::weights::normalized_row;
use crate::weights::stored_row;
use crate::weights::verdict;

verus! {

/// Whether the subnetwork at index `i` has the identifier `netuid`.
pub open spec fn network_at(subnets: Seq<SubnetView>, i: int, netuid: u16) -> bool {
    0 <= i < subnets.len() && subnets[i].netuid == netuid
}

/// The index of the subnetwork with the identifier `netuid`, if it exists.
pub open spec fn network_of(subnets: Seq<SubnetView>, netuid: u16) -> Option<int> {
    if exists|i: int| network_at(subnets, i, netuid) {
        Some(choose|i: int| network_at(subnets, i, netuid))
    } else {
        None
    }
}

/// Whether no two subnetworks have the same identifier.
pub open spec fn distinct_netuids(subnets: Seq<SubnetView>) -> bool {
    forall|i: int, j: int|
        0 <= i < subnets.len() && 0 <= j < subnets.len() && subnets[i].netuid == subnets[j].netuid
            ==> i == j
}

/// The identifier of each subnetwork, in order.
pub open spec fn netuids(subnets: Seq<SubnetView>) -> Seq<u16> {
    subnets.map_values(|s: SubnetView| s.netuid)
}

/// The number of seated neurons of each subnetwork, in order.
pub open spec fn counts(subnets: Seq<SubnetView>) -> Seq<nat> {
    subnets.map_values(|s: SubnetView| s.n as nat)
}

/// Subnetworks with distinct identifiers are no more than there are
/// identifiers.
pub proof fn lemma_networks_bounded(subnets: Seq<SubnetView>)
    requires
        distinct_netuids(subnets),
    ensures
        subnets.len() <= 65536,
{
    let ids = netuids(subnets);
    if crate::weights::has_duplicates(ids) {
        let (a, b) = choose|a: int, b: int| 0 <= a < b < ids.len() && ids[a] == ids[b];
        assert(subnets[a].netuid == subnets[b].netuid);
    }
    crate::weights::lemma_distinct_len(ids, 65536);
}

/// The emission ratio of each subnetwork, in order.
pub open spec fn ratios(subnets: Seq<SubnetView>) -> Seq<nat> {
    subnets.map_values(|s: SubnetView| s.emission_ratio as nat)
}

/// Whether every hotkey that is seated in a subnetwork has an account.
pub open spec fn funded(subnets: Seq<SubnetView>, accounts: Seq<Account>) -> bool {
    forall|i: int, u: int|
        0 <= i < subnets.len() && 0 <= u < subnets[i].keys.len() && (
        #[trigger] subnets[i].keys[u]) is Some ==> index_of(
            accounts,
            subnets[i].keys[u].unwrap(),
        ) is Some
}

/// The stake behind each slot: that of the hotkey seated there, and none
/// behind a free slot.
pub open spec fn slot_stakes(keys: Seq<Option<AccountId>>, accounts: Seq<Account>) -> Seq<u64> {
    Seq::new(
        keys.len(),
        |u: int|
            match keys[u] {
                Some(h) => stake_of(accounts, h),
                None => 0u64,
            },
    )
}

/// The whole state as plain mathematical values.
pub struct PalletView {
    pub config: Config,
    pub blocks_per_step: u64,
    pub subnets: Seq<SubnetView>,
    pub ledger: LedgerView,
}

impl PalletView {
    /// The invariant of the state: every subnetwork and the ledger are well
    /// formed, no two subnetworks share an identifier, every seated hotkey
    /// has an account, and the emission ratios add up to at most one.
    pub open spec fn wf(self) -> bool {
        &&& forall|i: int| 0 <= i < self.subnets.len() ==> (#[trigger] self.subnets[i]).wf()
        &&& distinct_netuids(self.subnets)
        &&& self.ledger.wf()
        &&& funded(self.subnets, self.ledger.accounts)
        &&& sum(ratios(self.subnets)) <= ONE
    }

    /// The state at the start: no subnetwork and no account.
    pub open spec fn initial(config: Config) -> PalletView {
        PalletView {
            config,
            blocks_per_step: config.initial_blocks_per_step,
            subnets: Seq::empty(),
            ledger: LedgerView { accounts: Seq::empty(), total_stake: 0 },
        }
    }

    /// The state with subnetwork `i` replaced by `s`.
    pub open spec fn with_subnet(self, i: int, s: SubnetView) -> PalletView {
        PalletView { subnets: self.subnets.update(i, s), ..self }
    }

    /// The state with the ledger replaced by `l`.
    pub open spec fn with_ledger(self, l: LedgerView) -> PalletView {
        PalletView { ledger: l, ..self }
    }

    /// The state after a subnetwork `netuid` without slots was added.
    pub open spec fn network_added(self, netuid: u16) -> PalletView {
        PalletView {
            subnets: self.subnets.push(
                SubnetView::empty(
                    netuid,
                    self.config.max_allowed_uids,
                    self.config.hyper(),
                    self.config.initial_tempo,
                ),
            ),
            ..self
        }
    }

    /// The state after subnetwork `i` was removed.
    pub open spec fn network_removed(self, i: int) -> PalletView {
        PalletView { subnets: self.subnets.remove(i), ..self }
    }
}

/// With distinct identifiers, the index looked up for an identifier is the
/// one index at which its subnetwork stands.
pub proof fn lemma_network_of(subnets: Seq<SubnetView>, netuid: u16, i: int)
    requires
        distinct_netuids(subnets),
    ensures
        network_of(subnets, netuid) == Some(i) <==> network_at(subnets, i, netuid),
{
}

/// Replacing a subnetwork by one with the same identifier and the same
/// emission ratio leaves the identifiers distinct and findable as before,
/// and the sum of the ratios as it was.
pub proof fn lemma_update_keeps(subnets: Seq<SubnetView>, i: int, s: SubnetView)
    requires
        0 <= i < subnets.len(),
        distinct_netuids(subnets),
        s.netuid == subnets[i].netuid,
        s.emission_ratio == subnets[i].emission_ratio,
    ensures
        distinct_netuids(subnets.update(i, s)),
        ratios(subnets.update(i, s)) == ratios(subnets),
        forall|netuid: u16|
            #[trigger] network_of(subnets.update(i, s), netuid) == network_of(subnets, netuid),
{
    assert(ratios(subnets.update(i, s)) =~= ratios(subnets));
    let after = subnets.update(i, s);
    assert forall|netuid: u16| #[trigger]
        network_of(after, netuid) == network_of(subnets, netuid) by {
        assert forall|x: int| network_at(after, x, netuid) == network_at(subnets, x, netuid) by {}
        if exists|x: int| network_at(subnets, x, netuid) {
            let x = choose|x: int| network_at(subnets, x, netuid);
            assert(network_at(after, x, netuid));
            lemma_network_of(after, netuid, x);
        } else {
            if exists|x: int| network_at(after, x, netuid) {
                let x = choose|x: int| network_at(after, x, netuid);
                assert(network_at(subnets, x, netuid));
            }
        }
    }
}

/// In a well-formed state the two lookups of a subnetwork are inverse to
/// each other: the hotkey found at the uid that is found for a hotkey is
/// that hotkey, and the uid found for the hotkey that is found at a uid is
/// that uid. Every operation keeps the state well formed, so this holds
/// after each registration and each deregistration.
pub proof fn lemma_identity_inverse(p: PalletView, netuid: u16, hotkey: AccountId, uid: int)
    requires
        p.wf(),
        network_of(p.subnets, netuid) is Some,
    ensures
        ({
            let keys = p.subnets[network_of(p.subnets, netuid).unwrap()].keys;
            &&& uid_of(keys, hotkey) is Some ==> hotkey_at(keys, uid_of(keys, hotkey).unwrap())
                == Some(hotkey)
            &&& hotkey_at(keys, uid) == Some(hotkey) ==> uid_of(keys, hotkey) == Some(uid)
        }),
{
    let i = network_of(p.subnets, netuid).unwrap();
    assert(p.subnets[i].wf());
    crate::subnet::lemma_lookup_inverse(p.subnets[i].keys, hotkey, uid);
}

/// The whole state.
pub struct Pallet {
    config: Config,
    blocks_per_step: u64,
    subnets: Vec<Subnet>,
    ledger: Ledger,
}

impl View for Pallet {
    type V = PalletView;

    closed spec fn view(&self) -> PalletView {
        PalletView {
            config: self.config,
            blocks_per_step: self.blocks_per_step,
            subnets: self.subnets@.map_values(|s: Subnet| s@),
            ledger: self.ledger@,
        }
    }
}

impl Pallet {
    /// Makes the state at the start.
    pub fn new(config: Config) -> (p: Pallet)
        ensures
            p@ == PalletView::initial(config),
            p@.wf(),
    {
        let p = Pallet {
            config,
            blocks_per_step: config.initial_blocks_per_step,
            subnets: Vec::new(),
            ledger: Ledger::new(),
        };
        proof {
            assert(p@.subnets =~= Seq::empty());
            assert(p@.ledger.accounts =~= Seq::empty());
            assert(ratios(p@.subnets) =~= Seq::empty());
        }
        p
    }

    /// Finds the index of the subnetwork with the identifier `netuid`.
    pub fn find_network(&self, netuid: u16) -> (r: Option<usize>)
        requires
            self@.wf(),
        ensures
            match r {
                Some(i) => network_of(self@.subnets, netuid) == Some(i as int) && i
                    < self@.subnets.len(),
                None => network_of(self@.subnets, netuid) is None,
            },
    {
        let mut i: usize = 0;
        while i < self.subnets.len()
            invariant
                i <= self.subnets.len(),
                self@.wf(),
                forall|x: int| 0 <= x < i ==> !network_at(self@.subnets, x, netuid),
            decreases self.subnets.len() - i,
        {
            if self.subnets[i].netuid() == netuid {
                proof {
                    lemma_network_of(self@.subnets, netuid, i as int);
                }
                return Some(i);
            }
            i = i + 1;
        }
        None
    }

    /// Adds a subnetwork without slots, with the parameters that the
    /// configuration gives to new subnetworks and an emission ratio of
    /// zero. Fails where a subnetwork with this identifier exists.
    pub fn add_network(&mut self, netuid: u16) -> (r: Result<(), Error>)
        requires
            old(self)@.wf(),
        ensures
            final(self)@.wf(),
            match network_of(old(self)@.subnets, netuid) {
                Some(_) => r == Err::<(), Error>(Error::NetworkExists) && final(self)@ == old(
                    self,
                )@,
                None => r is Ok && final(self)@ == old(self)@.network_added(netuid),
            },
    {
        if self.find_network(netuid).is_some() {
            return Err(Error::NetworkExists);
        }
        let hyper: Hyper = self.config.hyper_of();
        let s = Subnet::new(netuid, self.config.max_allowed_uids, hyper, self.config.initial_tempo);
        self.subnets.push(s);
        proof {
            let before = old(self)@;
            let after = before.network_added(netuid);
            assert(self@.subnets =~= after.subnets);
            assert(ratios(after.subnets) =~= ratios(before.subnets).push(0nat));
            lemma_sum_push(ratios(before.subnets), 0nat);
            assert forall|i: int| 0 <= i < before.subnets.len() implies before.subnets[i].netuid
                != netuid by {
                if before.subnets[i].netuid == netuid {
                    assert(network_at(before.subnets, i, netuid));
                }
            }
            lemma_funded_keeps(
                before.subnets,
                after.subnets,
                before.ledger.accounts,
                after.ledger.accounts,
                |x: int| x,
            );
        }
        Ok(())
    }

    /// Removes the subnetwork `netuid` with all its slots. The accounts of
    /// its neurons stay. Fails where no such subnetwork exists.
    pub fn remove_network(&mut self, netuid: u16) -> (r: Result<(), Error>)
        requires
            old(self)@.wf(),
        ensures
            final(self)@.wf(),
            match network_of(old(self)@.subnets, netuid) {
                Some(i) => r is Ok && final(self)@ == old(self)@.network_removed(i),
                None => r == Err::<(), Error>(Error::InvalidUid) && final(self)@ == old(self)@,
            },
    {
        let i: usize = match self.find_network(netuid) {
            Some(i) => i,
            None => {
                return Err(Error::InvalidUid);
            },
        };
        let _ = self.subnets.remove(i);
        proof {
            let before = old(self)@;
            let after = before.network_removed(i as int);
            assert(self@.subnets =~= after.subnets);
            lemma_ratios_remove(before.subnets, i as int);
            lemma_funded_keeps(
                before.subnets,
                after.subnets,
                before.ledger.accounts,
                after.ledger.accounts,
                |x: int| if x < i { x } else { x + 1 },
            );
        }
        Ok(())
    }

    /// Looks up the uid at which `hotkey` is seated in the subnetwork
    /// `netuid`. There is none where the subnetwork does not exist or the
    /// hotkey is not seated in it.
    pub fn lookup_uid(&self, netuid: u16, hotkey: AccountId) -> (r: Option<u16>)
        requires
            self@.wf(),
        ensures
            match network_of(self@.subnets, netuid) {
                Some(i) => match r {
                    Some(u) => uid_of(self@.subnets[i].keys, hotkey) == Some(u as int),
                    None => uid_of(self@.subnets[i].keys, hotkey) is None,
                },
                None => r is None,
            },
    {
        match self.find_network(netuid) {
            Some(i) => {
                assert(self@.subnets[i as int].wf());
                self.subnets[i].lookup_uid(hotkey)
            },
            None => None,
        }
    }

    /// Looks up the hotkey that is seated at `uid` in the subnetwork
    /// `netuid`. There is none where the subnetwork does not exist or the
    /// slot is free.
    pub fn lookup_hotkey(&self, netuid: u16, uid: u16) -> (r: Option<AccountId>)
        requires
            self@.wf(),
        ensures
            r == match network_of(self@.subnets, netuid) {
                Some(i) => hotkey_at(self@.subnets[i].keys, uid as int),
                None => None,
            },
    {
        match self.find_network(netuid) {
            Some(i) => self.subnets[i].lookup_hotkey(uid),
            None => None,
        }
    }
}

/// Removing a subnetwork takes its emission ratio out of the sum.
pub proof fn lemma_ratios_remove(subnets: Seq<SubnetView>, i: int)
    requires
        0 <= i < subnets.len(),
    ensures
        sum(ratios(subnets.remove(i))) + subnets[i].emission_ratio == sum(ratios(subnets)),
    decreases subnets.len(),
{
    let r = ratios(subnets);
    if i == subnets.len() - 1 {
        assert(ratios(subnets.remove(i)) =~= r.drop_last());
    } else {
        let p = subnets.drop_last();
        lemma_ratios_remove(p, i);
        assert(ratios(p) =~= r.drop_last());
        assert(subnets.remove(i).drop_last() =~= p.remove(i));
        assert(ratios(subnets.remove(i)).drop_last() =~= ratios(p.remove(i)));
    }
}

impl PalletView {
    /// Why a hotkey cannot be registered, if it cannot: the subnetwork does
    /// not exist, admission control refused the proof, the hotkey holds a
    /// uid there already, it belongs to another coldkey, or the subnetwork
    /// has no free slot and none to reclaim.
    pub open spec fn register_verdict(
        self,
        hotkey: AccountId,
        coldkey: AccountId,
        netuid: u16,
        proof_valid: bool,
    ) -> Option<Error> {
        match network_of(self.subnets, netuid) {
            None => Some(Error::InvalidUid),
            Some(i) => {
                let s = self.subnets[i];
                if !proof_valid {
                    Some(Error::InvalidProof)
                } else if uid_of(s.keys, hotkey) is Some {
                    Some(Error::AlreadyRegistered)
                } else if index_of(self.ledger.accounts, hotkey) is Some
                    && self.ledger.accounts[index_of(self.ledger.accounts, hotkey).unwrap()].coldkey
                    != coldkey {
                    Some(Error::NonAssociatedColdKey)
                } else if (forall|v: int| !is_free(s.keys, s.max_n, v)) && (forall|v: int|
                    !is_live(s.keys, v)) {
                    Some(Error::SubnetworkFull)
                } else {
                    None
                }
            },
        }
    }

    /// Whether `uid` is where the next neuron is seated in subnetwork `i`:
    /// the lowest free uid, or, where none is free, the uid of the neuron
    /// to unseat.
    pub open spec fn is_seat(self, i: int, uid: int) -> bool {
        let s = self.subnets[i];
        ||| is_lowest_free(s.keys, s.max_n, uid)
        ||| (forall|v: int| !is_free(s.keys, s.max_n, v)) && is_prune_target(
            s.keys,
            slot_stakes(s.keys, self.ledger.accounts),
            s.emission,
            uid,
        )
    }

    /// The state after `hotkey` claimed the slot `uid` in subnetwork `i`,
    /// so that a neuron that sat there left with all that named it, and an
    /// account was opened for the hotkey where it had none.
    pub open spec fn registered(
        self,
        i: int,
        uid: int,
        hotkey: AccountId,
        coldkey: AccountId,
        block: u64,
    ) -> PalletView {
        PalletView {
            subnets: self.subnets.update(i, self.subnets[i].claimed(uid, hotkey, block)),
            ledger: if index_of(self.ledger.accounts, hotkey) is None {
                self.ledger.opened(hotkey, coldkey)
            } else {
                self.ledger
            },
            ..self
        }
    }

    /// Why a neuron cannot be unseated, if it cannot.
    pub open spec fn deregister_verdict(self, netuid: u16, uid: u16) -> Option<Error> {
        match network_of(self.subnets, netuid) {
            None => Some(Error::InvalidUid),
            Some(i) => if !is_live(self.subnets[i].keys, uid as int) {
                Some(Error::NotRegistered)
            } else {
                None
            },
        }
    }

    /// Why weights cannot be set, if they cannot: the subnetwork does not
    /// exist, the caller is not seated in it, or the weights break one of
    /// its rules.
    pub open spec fn weights_verdict(
        self,
        caller: AccountId,
        netuid: u16,
        uids: Seq<u16>,
        values: Seq<u16>,
    ) -> Option<Error> {
        match network_of(self.subnets, netuid) {
            None => Some(Error::InvalidUid),
            Some(i) => {
                let s = self.subnets[i];
                if uid_of(s.keys, caller) is None {
                    Some(Error::NotRegistered)
                } else {
                    verdict(uids, values, s.keys, s.hyper.min_allowed, s.hyper.ratio)
                }
            },
        }
    }

    /// Why the emission ratio of a subnetwork cannot be set, if it cannot:
    /// the subnetwork does not exist, or the ratios of all subnetworks
    /// would add up to more than one.
    pub open spec fn ratio_verdict(self, netuid: u16, ratio: u16) -> Option<Error> {
        match network_of(self.subnets, netuid) {
            None => Some(Error::InvalidUid),
            Some(i) => if sum(ratios(self.subnets)) - self.subnets[i].emission_ratio + ratio
                > ONE {
                Some(Error::EmissionRatioSumExceeded)
            } else {
                None
            },
        }
    }
}

/// Every seated hotkey has an account after a change through which the
/// accounts keep their hotkeys and every hotkey that is seated afterwards
/// has an account or sat at the same uid before, in the subnetwork that
/// `origin` names for its own.
pub proof fn lemma_funded_keeps(
    before: Seq<SubnetView>,
    after: Seq<SubnetView>,
    held: Seq<Account>,
    accounts: Seq<Account>,
    origin: spec_fn(int) -> int,
)
    requires
        funded(before, held),
        held.len() <= accounts.len(),
        forall|j: int| 0 <= j < held.len() ==> (#[trigger] accounts[j]).hotkey == held[j].hotkey,
        forall|x: int, u: int|
            0 <= x < after.len() && 0 <= u < after[x].keys.len() && (#[trigger] after[x].keys[u])
                is Some ==> index_of(accounts, after[x].keys[u].unwrap()) is Some || (0
                <= origin(x) < before.len() && u < before[origin(x)].keys.len()
                && before[origin(x)].keys[u] == after[x].keys[u]),
    ensures
        funded(after, accounts),
{
    assert forall|x: int, u: int|
        0 <= x < after.len() && 0 <= u < after[x].keys.len() && (#[trigger] after[x].keys[u])
            is Some implies index_of(accounts, after[x].keys[u].unwrap()) is Some by {
        let h = after[x].keys[u].unwrap();
        if index_of(accounts, h) is None {
            assert(before[origin(x)].keys[u] is Some);
            let j = index_of(held, h).unwrap();
            assert(account_at(held, j, h));
            assert(account_at(accounts, j, h));
        }
    }
}

impl Pallet {
    /// The stake behind each slot of subnetwork `i`.
    fn stakes_of(&self, i: usize) -> (r: Vec<u64>)
        requires
            self@.wf(),
            i < self@.subnets.len(),
        ensures
            r@ == slot_stakes(self@.subnets[i as int].keys, self@.ledger.accounts),
    {
        let n: usize = self.subnets[i].slots();
        let ghost keys = self@.subnets[i as int].keys;
        let mut r: Vec<u64> = Vec::new();
        let mut u: usize = 0;
        assert(self@.subnets[i as int].wf());
        while u < n
            invariant
                u <= n,
                n == keys.len(),
                n <= 65535,
                self@.wf(),
                i < self@.subnets.len(),
                keys == self@.subnets[i as int].keys,
                r.len() == u,
                forall|x: int|
                    0 <= x < u ==> r@[x] == slot_stakes(keys, self@.ledger.accounts)[x],
            decreases n - u,
        {
            let stake: u64 = match self.subnets[i].lookup_hotkey(u as u16) {
                Some(h) => self.ledger.stake_of(h),
                None => 0,
            };
            r.push(stake);
            u = u + 1;
        }
        proof {
            assert(r@ =~= slot_stakes(keys, self@.ledger.accounts));
        }
        r
    }

    /// Registers `hotkey` under `coldkey` in the subnetwork `netuid`, given
    /// whether admission control accepted the registration proof. The
    /// neuron is seated at the lowest free uid, or, where none is free, in
    /// place of the neuron with the least stake, the least emission among
    /// those, and the lowest uid among those. A neuron that is unseated
    /// leaves as by a deregistration: the entries for its uid are removed
    /// from every row of weights and bonds, so that nothing that was given
    /// to it passes to the newcomer. The slot starts active and empty, last
    /// changed at `block_number`. A hotkey that has no account yet gets
    /// one, bound to `coldkey`. Returns the uid.
    ///
    /// Nothing changes, and the reason is reported, where the subnetwork
    /// does not exist (`InvalidUid`), the proof was refused
    /// (`InvalidProof`), the hotkey is seated in the subnetwork already
    /// (`AlreadyRegistered`), the hotkey has an account under another
    /// coldkey (`NonAssociatedColdKey`), or the subnetwork has no free slot
    /// and no neuron to unseat (`SubnetworkFull`).
    pub fn register(
        &mut self,
        block_number: u64,
        hotkey: AccountId,
        coldkey: AccountId,
        netuid: u16,
        proof_valid: bool,
    ) -> (r: Result<u16, Error>)
        requires
            old(self)@.wf(),
        ensures
            final(self)@.wf(),
            match old(self)@.register_verdict(hotkey, coldkey, netuid, proof_valid) {
                Some(e) => r == Err::<u16, Error>(e) && final(self)@ == old(self)@,
                None => match r {
                    Ok(uid) => {
                        let i = network_of(old(self)@.subnets, netuid).unwrap();
                        let s = final(self)@.subnets[i];
                        &&& old(self)@.is_seat(i, uid as int)
                        &&& final(self)@ == old(self)@.registered(
                            i,
                            uid as int,
                            hotkey,
                            coldkey,
                            block_number,
                        )
                        &&& hotkey_at(final(self)@.subnets[i].keys, uid as int) == Some(hotkey)
                        &&& uid_of(final(self)@.subnets[i].keys, hotkey) == Some(uid as int)
                        &&& forall|u: int, k: int|
                            0 <= u < s.weights.len() && 0 <= k < s.weights[u].len() ==> (
                            #[trigger] s.weights[u][k]).0 != uid
                        &&& forall|u: int, k: int|
                            0 <= u < s.bonds.len() && 0 <= k < s.bonds[u].len() ==> (
                            #[trigger] s.bonds[u][k]).0 != uid
                    },
                    Err(_) => false,
                },
            },
    {
        let i: usize = match self.find_network(netuid) {
            Some(i) => i,
            None => {
                return Err(Error::InvalidUid);
            },
        };
        if !proof_valid {
            return Err(Error::InvalidProof);
        }
        assert(self@.subnets[i as int].wf());
        if self.subnets[i].lookup_uid(hotkey).is_some() {
            return Err(Error::AlreadyRegistered);
        }
        let account: Option<usize> = self.ledger.find(hotkey);
        match account {
            Some(a) => {
                if self.ledger.account(a).coldkey != coldkey {
                    return Err(Error::NonAssociatedColdKey);
                }
            },
            None => {},
        }
        let uid: u16 = match self.subnets[i].free_uid() {
            Some(u) => u,
            None => {
                let stakes: Vec<u64> = self.stakes_of(i);
                match self.subnets[i].prune_target(&stakes) {
                    Some(u) => u,
                    None => {
                        return Err(Error::SubnetworkFull);
                    },
                }
            },
        };
        let ghost before = self@;
        let ghost after = before.registered(i as int, uid as int, hotkey, coldkey, block_number);
        if account.is_none() {
            self.ledger.open(hotkey, coldkey);
        }
        self.subnets[i].claim(uid, hotkey, block_number);
        proof {
            assert(self@.subnets =~= after.subnets);
            lemma_update_keeps(before.subnets, i as int, after.subnets[i as int]);
            crate::subnet::lemma_lookup_inverse(after.subnets[i as int].keys, hotkey, uid as int);
            assert(index_of(after.ledger.accounts, hotkey) is Some) by {
                if index_of(before.ledger.accounts, hotkey) is None {
                    assert(account_at(
                        after.ledger.accounts,
                        before.ledger.accounts.len() as int,
                        hotkey,
                    ));
                }
            }
            lemma_funded_keeps(
                before.subnets,
                after.subnets,
                before.ledger.accounts,
                after.ledger.accounts,
                |x: int| x,
            );
        }
        Ok(uid)
    }

    /// Unseats the neuron at `uid` in the subnetwork `netuid`: the slot is
    /// cleared and freed, and the entries for it are removed from every row
    /// of weights and bonds of the subnetwork, so that no row names the
    /// freed uid afterwards. The account of the hotkey stays.
    ///
    /// Nothing changes where the subnetwork does not exist (`InvalidUid`)
    /// or the slot holds no neuron (`NotRegistered`).
    pub fn deregister(&mut self, netuid: u16, uid: u16) -> (r: Result<(), Error>)
        requires
            old(self)@.wf(),
        ensures
            final(self)@.wf(),
            match old(self)@.deregister_verdict(netuid, uid) {
                Some(e) => r == Err::<(), Error>(e) && final(self)@ == old(self)@,
                None => {
                    let i = network_of(old(self)@.subnets, netuid).unwrap();
                    let s = final(self)@.subnets[i];
                    &&& r is Ok
                    &&& final(self)@ == old(self)@.with_subnet(
                        i,
                        old(self)@.subnets[i].vacated(uid as int),
                    )
                    &&& hotkey_at(s.keys, uid as int) is None
                    &&& uid_of(s.keys, old(self)@.subnets[i].keys[uid as int].unwrap()) is None
                    &&& forall|u: int, k: int|
                        0 <= u < s.weights.len() && 0 <= k < s.weights[u].len() ==> (
                        #[trigger] s.weights[u][k]).0 != uid
                    &&& forall|u: int, k: int|
                        0 <= u < s.bonds.len() && 0 <= k < s.bonds[u].len() ==> (
                        #[trigger] s.bonds[u][k]).0 != uid
                },
            },
    {
        let i: usize = match self.find_network(netuid) {
            Some(i) => i,
            None => {
                return Err(Error::InvalidUid);
            },
        };
        if self.subnets[i].lookup_hotkey(uid).is_none() {
            return Err(Error::NotRegistered);
        }
        let ghost before = self@;
        let ghost after = before.with_subnet(i as int, before.subnets[i as int].vacated(uid as int));
        assert(before.subnets[i as int].wf());
        self.subnets[i].vacate(uid);
        proof {
            assert(self@.subnets =~= after.subnets);
            lemma_vacated_wf(before.subnets[i as int], uid as int);
            lemma_update_keeps(before.subnets, i as int, after.subnets[i as int]);
            let gone = before.subnets[i as int].keys[uid as int].unwrap();
            assert forall|u: int| !seated_at(after.subnets[i as int].keys, u, gone) by {
                if seated_at(after.subnets[i as int].keys, u, gone) {
                    assert(before.subnets[i as int].keys[u] == before.subnets[i as int].keys[uid as int]);
                }
            }
            lemma_funded_keeps(
                before.subnets,
                after.subnets,
                before.ledger.accounts,
                after.ledger.accounts,
                |x: int| x,
            );
        }
        Ok(())
    }

    /// Sets the weights that the neuron of the hotkey `caller` gives in the
    /// subnetwork `netuid`: `weights[k]` to the neuron at `dests[k]`. The
    /// weights are stored normalized to a sum of one.
    ///
    /// Nothing changes, and the reason is reported, where the subnetwork
    /// does not exist (`InvalidUid`), the caller is not seated in it
    /// (`NotRegistered`), the two lists differ in length
    /// (`WeightVecNotEqualSize`), a target occurs twice (`DuplicateUids`), a
    /// target is no seated neuron (`InvalidUid`), fewer weights are
    /// non-zero than the subnetwork asks for (`NotSettingEnoughWeights`), or
    /// a weight is more than the allowed multiple of the smallest non-zero
    /// one (`MaxAllowedMaxMinRatioExceeded`); the first of these that holds
    /// is the one reported.
    pub fn set_weights(
        &mut self,
        caller: AccountId,
        netuid: u16,
        dests: Vec<u16>,
        weights: Vec<u16>,
    ) -> (r: Result<Event, Error>)
        requires
            old(self)@.wf(),
        ensures
            final(self)@.wf(),
            match old(self)@.weights_verdict(caller, netuid, dests@, weights@) {
                Some(e) => r == Err::<Event, Error>(e) && final(self)@ == old(self)@,
                None => {
                    let i = network_of(old(self)@.subnets, netuid).unwrap();
                    let uid = uid_of(old(self)@.subnets[i].keys, caller).unwrap();
                    &&& r == Ok::<Event, Error>(Event::WeightsSet(netuid, uid as u16))
                    &&& final(self)@ == old(self)@.with_subnet(
                        i,
                        old(self)@.subnets[i].with_weights(uid, stored_row(dests@, weights@)),
                    )
                },
            },
    {
        let i: usize = match self.find_network(netuid) {
            Some(i) => i,
            None => {
                return Err(Error::InvalidUid);
            },
        };
        assert(self@.subnets[i as int].wf());
        let uid: u16 = match self.subnets[i].lookup_uid(caller) {
            Some(u) => u,
            None => {
                return Err(Error::NotRegistered);
            },
        };
        match self.subnets[i].check_weights(&dests, &weights) {
            Err(e) => {
                return Err(e);
            },
            Ok(_) => {},
        }
        let row: Vec<(u16, u16)> = normalized_row(&dests, &weights);
        let ghost before = self@;
        let ghost after = before.with_subnet(
            i as int,
            before.subnets[i as int].with_weights(uid as int, stored_row(dests@, weights@)),
        );
        proof {
            lemma_stored_row_wf(dests@, weights@, before.subnets[i as int].keys);
            assert(seated_at(before.subnets[i as int].keys, uid as int, caller));
        }
        self.subnets[i].store_weights(uid, row);
        proof {
            assert(self@.subnets =~= after.subnets);
            lemma_update_keeps(before.subnets, i as int, after.subnets[i as int]);
            lemma_funded_keeps(
                before.subnets,
                after.subnets,
                before.ledger.accounts,
                after.ledger.accounts,
                |x: int| x,
            );
        }
        Ok(Event::WeightsSet(netuid, uid))
    }

    /// Moves `ammount_staked` from the balance of the coldkey `caller`,
    /// which holds `balance`, onto the stake of `hotkey`.
    ///
    /// Nothing changes, and the reason is reported, where the hotkey has no
    /// account (`NotRegistered`), the caller is not its coldkey
    /// (`NonAssociatedColdKey`), the balance does not cover the amount
    /// (`NotEnoughBalanceToStake`), or all stake would leave the range of
    /// 64 bits (`StorageOverflow`).
    pub fn add_stake(
        &mut self,
        caller: AccountId,
        hotkey: AccountId,
        ammount_staked: u64,
        balance: u64,
    ) -> (r: Result<Event, Error>)
        requires
            old(self)@.wf(),
        ensures
            final(self)@.wf(),
            match old(self)@.ledger.add_verdict(caller, hotkey, ammount_staked, balance) {
                Some(e) => r == Err::<Event, Error>(e) && final(self)@ == old(self)@,
                None => r == Ok::<Event, Error>(Event::StakeAdded(hotkey, ammount_staked))
                    && final(self)@ == old(self)@.with_ledger(
                    old(self)@.ledger.credited(
                        index_of(old(self)@.ledger.accounts, hotkey).unwrap(),
                        ammount_staked,
                    ),
                ) && final(self)@.ledger.total_stake == old(self)@.ledger.total_stake
                    + ammount_staked,
            },
    {
        let r = self.ledger.add_stake(caller, hotkey, ammount_staked, balance);
        proof {
            if r is Ok {
                crate::ledger::lemma_credited_wf(
                    old(self)@.ledger,
                    index_of(old(self)@.ledger.accounts, hotkey).unwrap(),
                    ammount_staked,
                );
            }
            lemma_funded_keeps(
                self@.subnets,
                self@.subnets,
                old(self)@.ledger.accounts,
                self@.ledger.accounts,
                |x: int| x,
            );
        }
        r
    }

    /// Moves `ammount_unstaked` from the stake of `hotkey` back to the
    /// coldkey `caller`.
    ///
    /// Nothing changes, and the reason is reported, where the hotkey has no
    /// account (`NotRegistered`), the caller is not its coldkey
    /// (`NonAssociatedColdKey`), or the hotkey holds less than the amount
    /// (`NotEnoughStaketoWithdraw`).
    pub fn remove_stake(
        &mut self,
        caller: AccountId,
        hotkey: AccountId,
        ammount_unstaked: u64,
    ) -> (r: Result<Event, Error>)
        requires
            old(self)@.wf(),
        ensures
            final(self)@.wf(),
            match old(self)@.ledger.remove_verdict(caller, hotkey, ammount_unstaked) {
                Some(e) => r == Err::<Event, Error>(e) && final(self)@ == old(self)@,
                None => r == Ok::<Event, Error>(Event::StakeRemoved(hotkey, ammount_unstaked))
                    && final(self)@ == old(self)@.with_ledger(
                    old(self)@.ledger.debited(
                        index_of(old(self)@.ledger.accounts, hotkey).unwrap(),
                        ammount_unstaked,
                    ),
                ) && final(self)@.ledger.total_stake == old(self)@.ledger.total_stake
                    - ammount_unstaked,
            },
    {
        let r = self.ledger.remove_stake(caller, hotkey, ammount_unstaked);
        proof {
            if r is Ok {
                crate::ledger::lemma_debited_wf(
                    old(self)@.ledger,
                    index_of(old(self)@.ledger.accounts, hotkey).unwrap(),
                    ammount_unstaked,
                );
            }
            lemma_funded_keeps(
                self@.subnets,
                self@.subnets,
                old(self)@.ledger.accounts,
                self@.ledger.accounts,
                |x: int| x,
            );
        }
        r
    }

    /// Tells whether `hotkey` is seated in some subnetwork.
    pub fn is_registered(&self, hotkey: AccountId) -> (r: bool)
        requires
            self@.wf(),
        ensures
            r == seated_anywhere(self@.subnets, hotkey),
    {
        let mut i: usize = 0;
        while i < self.subnets.len()
            invariant
                i <= self.subnets.len(),
                self@.wf(),
                forall|x: int| 0 <= x < i ==> uid_of(#[trigger] self@.subnets[x].keys, hotkey) is None,
            decreases self.subnets.len() - i,
        {
            assert(self@.subnets[i as int].wf());
            if self.subnets[i].lookup_uid(hotkey).is_some() {
                return true;
            }
            i = i + 1;
        }
        false
    }

    /// Records the endpoint that the neuron of the hotkey `caller` serves.
    /// Nothing changes, and `NotRegistered` is reported, where the hotkey
    /// is seated in no subnetwork, though it may still have an account.
    pub fn serve_axon(
        &mut self,
        caller: AccountId,
        version: u32,
        ip: u128,
        port: u16,
        ip_type: u8,
        modality: u8,
    ) -> (r: Result<(), Error>)
        requires
            old(self)@.wf(),
        ensures
            final(self)@.wf(),
            if seated_anywhere(old(self)@.subnets, caller) {
                &&& r is Ok
                &&& index_of(old(self)@.ledger.accounts, caller) is Some
                &&& final(self)@ == old(self)@.with_ledger(
                    old(self)@.ledger.served(
                        index_of(old(self)@.ledger.accounts, caller).unwrap(),
                        Axon { version, ip, port, ip_type, modality },
                    ),
                )
            } else {
                r == Err::<(), Error>(Error::NotRegistered) && final(self)@ == old(self)@
            },
    {
        if !self.is_registered(caller) {
            return Err(Error::NotRegistered);
        }
        proof {
            let x = choose|x: int|
                0 <= x < self@.subnets.len() && uid_of(#[trigger] self@.subnets[x].keys, caller)
                    is Some;
            let u = uid_of(self@.subnets[x].keys, caller).unwrap();
            assert(seated_at(self@.subnets[x].keys, u, caller));
            assert(self@.subnets[x].keys[u] is Some);
        }
        let i: usize = match self.ledger.find(caller) {
            Some(i) => i,
            None => {
                return Err(Error::NotRegistered);
            },
        };
        self.ledger.serve(i, Axon { version, ip, port, ip_type, modality });
        proof {
            lemma_funded_keeps(
                self@.subnets,
                self@.subnets,
                old(self)@.ledger.accounts,
                self@.ledger.accounts,
                |x: int| x,
            );
        }
        Ok(())
    }

    /// Sets the number of blocks per step.
    pub fn sudo_set_blocks_per_step(&mut self, blocks_per_step: u64) -> (r: Result<Event, Error>)
        ensures
            r == Ok::<Event, Error>(Event::BlocksPerStepSet(blocks_per_step)),
            final(self)@ == (PalletView { blocks_per_step, ..old(self)@ }),
    {
        self.blocks_per_step = blocks_per_step;
        Ok(Event::BlocksPerStepSet(blocks_per_step))
    }

    /// Sets the number of blocks between two epochs of the subnetwork
    /// `netuid`. Fails where no such subnetwork exists.
    pub fn sudo_set_tempo(&mut self, netuid: u16, tempo: u16) -> (r: Result<Event, Error>)
        requires
            old(self)@.wf(),
        ensures
            final(self)@.wf(),
            match network_of(old(self)@.subnets, netuid) {
                None => r == Err::<Event, Error>(Error::InvalidUid) && final(self)@ == old(self)@,
                Some(i) => r == Ok::<Event, Error>(Event::TempoSet(tempo)) && final(self)@ == old(
                    self,
                )@.with_subnet(i, SubnetView { tempo, ..old(self)@.subnets[i] }),
            },
    {
        let i: usize = match self.find_network(netuid) {
            Some(i) => i,
            None => {
                return Err(Error::InvalidUid);
            },
        };
        let ghost before = self@;
        let ghost after = before.with_subnet(
            i as int,
            SubnetView { tempo, ..before.subnets[i as int] },
        );
        self.subnets[i].set_tempo(tempo);
        proof {
            assert(self@.subnets =~= after.subnets);
            assert(before.subnets[i as int].wf());
            lemma_update_keeps(before.subnets, i as int, after.subnets[i as int]);
            lemma_funded_keeps(
                before.subnets,
                after.subnets,
                before.ledger.accounts,
                after.ledger.accounts,
                |x: int| x,
            );
        }
        Ok(Event::TempoSet(tempo))
    }

    /// Counts the seated neurons of all subnetworks.
    pub fn global_n(&self) -> (r: u64)
        requires
            self@.wf(),
        ensures
            r == sum(counts(self@.subnets)),
    {
        proof {
            lemma_networks_bounded(self@.subnets);
        }
        let mut acc: u64 = 0;
        let mut i: usize = 0;
        while i < self.subnets.len()
            invariant
                i <= self.subnets.len(),
                self.subnets.len() <= 65536,
                acc == sum(counts(self@.subnets).take(i as int)),
                acc <= i * 65535,
            decreases self.subnets.len() - i,
        {
            proof {
                lemma_sum_take_step(counts(self@.subnets), i as int);
            }
            acc = acc + self.subnets[i].n() as u64;
            i = i + 1;
        }
        proof {
            lemma_take_all(counts(self@.subnets));
        }
        acc
    }

    /// Adds up the emission ratios of all subnetworks.
    pub fn calculate_emission_ratio_sum(&self) -> (r: u16)
        requires
            self@.wf(),
        ensures
            r == sum(ratios(self@.subnets)),
    {
        let mut acc: u16 = 0;
        let mut i: usize = 0;
        while i < self.subnets.len()
            invariant
                i <= self.subnets.len(),
                self@.wf(),
                acc == sum(ratios(self@.subnets).take(i as int)),
            decreases self.subnets.len() - i,
        {
            proof {
                crate::fixed::lemma_sum_take_step(ratios(self@.subnets), i as int);
                crate::fixed::lemma_sum_take_le(ratios(self@.subnets), i + 1);
            }
            acc = acc + self.subnets[i].emission_ratio();
            i = i + 1;
        }
        proof {
            lemma_take_all(ratios(self@.subnets));
        }
        acc
    }

    /// Sets the fraction of the global emission that goes to the
    /// subnetwork `netuid`. An update with which the ratios of all
    /// subnetworks would add up to more than one is rejected, and nothing
    /// changes.
    pub fn sudo_set_emission_ratio(&mut self, netuid: u16, subnet_emission_ratio: u16) -> (r:
        Result<(), Error>)
        requires
            old(self)@.wf(),
        ensures
            final(self)@.wf(),
            sum(ratios(final(self)@.subnets)) <= ONE,
            match old(self)@.ratio_verdict(netuid, subnet_emission_ratio) {
                Some(e) => r == Err::<(), Error>(e) && final(self)@ == old(self)@,
                None => {
                    let i = network_of(old(self)@.subnets, netuid).unwrap();
                    &&& r is Ok
                    &&& final(self)@ == old(self)@.with_subnet(
                        i,
                        SubnetView {
                            emission_ratio: subnet_emission_ratio,
                            ..old(self)@.subnets[i]
                        },
                    )
                },
            },
    {
        let i: usize = match self.find_network(netuid) {
            Some(i) => i,
            None => {
                return Err(Error::InvalidUid);
            },
        };
        let total: u16 = self.calculate_emission_ratio_sum();
        let current: u16 = self.subnets[i].emission_ratio();
        proof {
            crate::fixed::lemma_sum_entry_le(ratios(self@.subnets), i as int);
        }
        let others: u16 = total - current;
        if subnet_emission_ratio > ONE - others {
            return Err(Error::EmissionRatioSumExceeded);
        }
        let ghost before = self@;
        let ghost after = before.with_subnet(
            i as int,
            SubnetView { emission_ratio: subnet_emission_ratio, ..before.subnets[i as int] },
        );
        self.subnets[i].set_emission_ratio(subnet_emission_ratio);
        proof {
            assert(self@.subnets =~= after.subnets);
            assert(before.subnets[i as int].wf());
            assert(ratios(after.subnets) =~= ratios(before.subnets).update(
                i as int,
                subnet_emission_ratio as nat,
            ));
            lemma_sum_update(ratios(before.subnets), i as int, subnet_emission_ratio as nat);
            assert(distinct_netuids(after.subnets));
            lemma_funded_keeps(
                before.subnets,
                after.subnets,
                before.ledger.accounts,
                after.ledger.accounts,
                |x: int| x,
            );
        }
        Ok(())
    }
}

/// What an epoch paid.
#[derive(Debug, PartialEq, Eq)]
pub struct Payout {
    /// What was paid to each slot.
    pub paid: Vec<u64>,
    /// What was paid in all: the amount by which all stake grew.
    pub total: u64,
}

/// Whether `hotkey` is seated in some subnetwork.
pub open spec fn seated_anywhere(subnets: Seq<SubnetView>, hotkey: AccountId) -> bool {
    exists|i: int| 0 <= i < subnets.len() && uid_of(#[trigger] subnets[i].keys, hotkey) is Some
}

/// Whether an epoch of the subnetwork is due at `block`: at least as many
/// blocks as its tempo have passed since its last epoch.
pub open spec fn due(s: SubnetView, block: u64) -> bool {
    block >= s.last_epoch && block - s.last_epoch >= s.tempo
}

/// The emission that an epoch distributes: the emission of one block times
/// the number of blocks since the last epoch times the subnetwork's ratio.
pub open spec fn budget_of(rate: u64, blocks: u64, ratio: u16) -> nat {
    rate as nat * blocks as nat * ratio as nat / (ONE as nat)
}

/// The ledger after the first `upto` slots were paid: what was paid to a
/// slot is added to the stake of the hotkey seated there.
pub open spec fn paid_out(
    l: LedgerView,
    keys: Seq<Option<AccountId>>,
    paid: Seq<u64>,
    upto: nat,
) -> LedgerView
    decreases upto,
{
    if upto == 0 {
        l
    } else {
        let p = paid_out(l, keys, paid, (upto - 1) as nat);
        match keys[upto - 1] {
            Some(h) => match index_of(p.accounts, h) {
                Some(i) => p.credited(i, paid[upto - 1]),
                None => p,
            },
            None => p,
        }
    }
}

impl PalletView {
    /// The emission that an epoch of subnetwork `i` at `block` distributes.
    pub open spec fn budget(self, i: int, block: u64) -> nat {
        budget_of(
            self.config.block_emission,
            (block - self.subnets[i].last_epoch) as u64,
            self.subnets[i].emission_ratio,
        )
    }

    /// Why an epoch cannot run, if it cannot: the subnetwork does not
    /// exist, or the epoch is due and all stake with all that the epoch may
    /// pay out would leave the range of the total.
    pub open spec fn epoch_verdict(self, netuid: u16, block: u64) -> Option<Error> {
        match network_of(self.subnets, netuid) {
            None => Some(Error::InvalidUid),
            Some(i) => if due(self.subnets[i], block) && self.ledger.total_stake + self.budget(
                i,
                block,
            ) > u64::MAX {
                Some(Error::StorageOverflow)
            } else {
                None
            },
        }
    }

    /// Whether `after` is this state after an epoch of subnetwork `i` at
    /// `block` that paid `paid`: the subnetwork went through the epoch on
    /// the stake behind its slots, what it paid was added to the stake of
    /// its neurons, so that all stake grew by all that was paid, and all
    /// else is as it was.
    pub open spec fn epoch_to(self, i: int, block: u64, paid: Seq<u64>, after: PalletView) -> bool {
        let s = self.subnets[i];
        &&& s.epoch_to(
            slot_stakes(s.keys, self.ledger.accounts),
            self.budget(i, block) as u64,
            block,
            after.subnets[i],
        )
        &&& paid == after.subnets[i].emission
        &&& after.ledger.total_stake == self.ledger.total_stake + sum(nats(paid))
        &&& after == PalletView {
            subnets: self.subnets.update(i, after.subnets[i]),
            ledger: paid_out(self.ledger, s.keys, paid, s.keys.len()),
            ..self
        }
    }
}

impl Pallet {
    /// Tells whether an epoch of the subnetwork `netuid` is due at `block`.
    /// None is due for a subnetwork that does not exist.
    pub fn epoch_due(&self, netuid: u16, block: u64) -> (r: bool)
        requires
            self@.wf(),
        ensures
            r == match network_of(self@.subnets, netuid) {
                Some(i) => due(self@.subnets[i], block),
                None => false,
            },
    {
        match self.find_network(netuid) {
            Some(i) => {
                let last: u64 = self.subnets[i].last_epoch();
                block >= last && block - last >= self.subnets[i].tempo() as u64
            },
            None => false,
        }
    }

    /// Runs the epoch of the subnetwork `netuid` at `block` if it is due,
    /// and returns what the epoch paid to each slot and in all, which is
    /// what is to be minted; where none is due,
    /// nothing changes and nothing is returned. The epoch works on the
    /// stake behind each slot, distributes the emission of the blocks since
    /// the last epoch by the subnetwork's ratio, and adds what it pays to
    /// the stake of the neurons.
    ///
    /// Nothing changes where the subnetwork does not exist (`InvalidUid`),
    /// or where all stake with the whole emission of the epoch would leave
    /// the range of 64 bits (`StorageOverflow`).
    pub fn run_epoch(&mut self, netuid: u16, block: u64) -> (r: Result<Option<Payout>, Error>)
        requires
            old(self)@.wf(),
        ensures
            final(self)@.wf(),
            match old(self)@.epoch_verdict(netuid, block) {
                Some(e) => r == Err::<Option<Payout>, Error>(e) && final(self)@ == old(self)@,
                None => {
                    let i = network_of(old(self)@.subnets, netuid).unwrap();
                    if due(old(self)@.subnets[i], block) {
                        match r {
                            Ok(Some(payout)) => old(self)@.epoch_to(
                                i,
                                block,
                                payout.paid@,
                                final(self)@,
                            ) && payout.total == sum(nats(payout.paid@)),
                            _ => false,
                        }
                    } else {
                        r == Ok::<Option<Payout>, Error>(None) && final(self)@ == old(self)@
                    }
                },
            },
    {
        let i: usize = match self.find_network(netuid) {
            Some(i) => i,
            None => {
                return Err(Error::InvalidUid);
            },
        };
        let last: u64 = self.subnets[i].last_epoch();
        if !(block >= last && block - last >= self.subnets[i].tempo() as u64) {
            return Ok(None);
        }
        let elapsed: u64 = block - last;
        let rate: u64 = self.config.block_emission;
        let ratio: u16 = self.subnets[i].emission_ratio();
        let ghost before = self@;
        let ghost exact = before.budget(i as int, block);
        assert(rate * elapsed <= 0xffff_ffff_ffff_ffff * 0xffff_ffff_ffff_ffff) by (nonlinear_arith)
            requires
                rate <= 0xffff_ffff_ffff_ffff,
                elapsed <= 0xffff_ffff_ffff_ffff,
        ;
        let product: u128 = rate as u128 * elapsed as u128;
        let room: u64 = u64::MAX - self.ledger.total_stake();
        let budget: u64 = match product.checked_mul(ratio as u128) {
            None => {
                return Err(Error::StorageOverflow);
            },
            Some(scaled) => {
                let b: u128 = scaled / (ONE as u128);
                if b > room as u128 {
                    return Err(Error::StorageOverflow);
                }
                b as u64
            },
        };
        assert(budget == exact);
        assert(before.subnets[i as int].wf());
        let stakes: Vec<u64> = self.stakes_of(i);
        let paid: Vec<u64> = self.subnets[i].run_epoch(&stakes, budget, block);
        let ghost mid = self@;
        let ghost keys = before.subnets[i as int].keys;
        let ghost start = before.ledger;
        proof {
            assert(mid.subnets =~= before.subnets.update(i as int, mid.subnets[i as int]));
            lemma_update_keeps(before.subnets, i as int, mid.subnets[i as int]);
            assert(mid.subnets[i as int].keys == keys);
            assert(nats(paid@).len() == paid@.len());
        }
        let held: u64 = self.ledger.total_stake();
        let n: usize = self.subnets[i].slots();
        let mut u: usize = 0;
        while u < n
            invariant
                u <= n,
                n == keys.len(),
                n <= 65535,
                n == paid.len(),
                held == start.total_stake,
                i < self.subnets.len(),
                self@ == mid.with_ledger(self@.ledger),
                mid.subnets[i as int].keys == keys,
                mid.subnets[i as int].wf(),
                start.wf(),
                self@.ledger.wf(),
                self@.ledger == paid_out(start, keys, paid@, u as nat),
                self@.ledger.accounts.len() == start.accounts.len(),
                forall|j: int|
                    0 <= j < start.accounts.len() ==> (#[trigger] self@.ledger.accounts[j]).hotkey
                        == start.accounts[j].hotkey,
                self@.ledger.total_stake == start.total_stake + sum(nats(paid@).take(u as int)),
                start.total_stake + sum(nats(paid@)) <= u64::MAX,
                funded(before.subnets, start.accounts),
                i < before.subnets.len(),
                before.subnets[i as int].keys == keys,
                nats(paid@) == before.subnets[i as int].payout(
                    slot_stakes(keys, start.accounts),
                    budget,
                ),
            decreases n - u,
        {
            proof {
                lemma_sum_take_step(nats(paid@), u as int);
                lemma_sum_take_le(nats(paid@), u + 1);
                lemma_funded_keeps(
                    before.subnets,
                    before.subnets,
                    start.accounts,
                    self@.ledger.accounts,
                    |x: int| x,
                );
                if keys[u as int] is None {
                    assert(nats(paid@)[u as int] == 0);
                } else {
                    assert(before.subnets[i as int].keys[u as int] is Some);
                }
            }
            match self.subnets[i].lookup_hotkey(u as u16) {
                Some(h) => {
                    match self.ledger.find(h) {
                        Some(a) => {
                            self.ledger.credit(a, paid[u]);
                        },
                        None => {},
                    }
                },
                None => {},
            }
            u = u + 1;
        }
        proof {
            let after = self@;
            lemma_take_all(nats(paid@));
            assert(after.subnets[i as int] == mid.subnets[i as int]);
            lemma_funded_keeps(
                before.subnets,
                mid.subnets,
                start.accounts,
                after.ledger.accounts,
                |x: int| x,
            );
            assert forall|x: int| 0 <= x < after.subnets.len() implies (
            #[trigger] after.subnets[x]).wf() by {
                if x != i {
                    assert(before.subnets[x].wf());
                }
            }
        }
        let total: u64 = self.ledger.total_stake() - held;
        Ok(Some(Payout { paid, total }))
    }
}

impl Pallet {
    /// Puts the state together from its parts, if they fit together: no two
    /// subnetworks share an identifier, every seated hotkey has an account,
    /// and the emission ratios add up to at most one.
    pub fn from_parts(
        config: Config,
        blocks_per_step: u64,
        subnets: Vec<Subnet>,
        ledger: Ledger,
    ) -> (r: Option<Pallet>)
        requires
            forall|i: int| 0 <= i < subnets.len() ==> (#[trigger] subnets@[i])@.wf(),
            ledger@.wf(),
        ensures
            match r {
                Some(p) => p@.wf() && p@ == (PalletView {
                    config,
                    blocks_per_step,
                    subnets: subnets@.map_values(|s: Subnet| s@),
                    ledger: ledger@,
                }),
                None => !(PalletView {
                    config,
                    blocks_per_step,
                    subnets: subnets@.map_values(|s: Subnet| s@),
                    ledger: ledger@,
                }).wf(),
            },
    {
        let ghost views = subnets@.map_values(|s: Subnet| s@);
        let mut total: u64 = 0;
        let mut j: usize = 0;
        while j < subnets.len()
            invariant
                j <= subnets.len(),
                views == subnets@.map_values(|s: Subnet| s@),
                ledger@.wf(),
                forall|i: int| 0 <= i < subnets.len() ==> (#[trigger] subnets@[i])@.wf(),
                total == sum(ratios(views).take(j as int)),
                total <= ONE,
                forall|x: int, y: int|
                    0 <= x < j && 0 <= y < j && views[x].netuid == views[y].netuid ==> x == y,
                forall|x: int, u: int|
                    0 <= x < j && 0 <= u < views[x].keys.len() && (#[trigger] views[x].keys[u])
                        is Some ==> index_of(ledger@.accounts, views[x].keys[u].unwrap()) is Some,
            decreases subnets.len() - j,
        {
            proof {
                lemma_sum_take_step(ratios(views), j as int);
                lemma_sum_take_le(ratios(views), j + 1);
            }
            assert(views[j as int] == subnets@[j as int]@);
            assert(views[j as int].wf());
            let ratio: u16 = subnets[j].emission_ratio();
            if total + ratio as u64 > ONE as u64 {
                return None;
            }
            total = total + ratio as u64;
            let netuid: u16 = subnets[j].netuid();
            let mut i: usize = 0;
            while i < j
                invariant
                    i <= j < subnets.len(),
                    views == subnets@.map_values(|s: Subnet| s@),
                    netuid == views[j as int].netuid,
                    forall|x: int| 0 <= x < i ==> views[x].netuid != netuid,
                decreases j - i,
            {
                assert(views[i as int] == subnets@[i as int]@);
                if subnets[i].netuid() == netuid {
                    return None;
                }
                i = i + 1;
            }
            let n: usize = subnets[j].slots();
            let mut u: usize = 0;
            while u < n
                invariant
                    u <= n,
                    n == views[j as int].keys.len(),
                    n <= 65535,
                    j < subnets.len(),
                    views == subnets@.map_values(|s: Subnet| s@),
                    ledger@.wf(),
                    forall|v: int|
                        0 <= v < u && (#[trigger] views[j as int].keys[v]) is Some ==> index_of(
                            ledger@.accounts,
                            views[j as int].keys[v].unwrap(),
                        ) is Some,
                decreases n - u,
            {
                assert(views[j as int] == subnets@[j as int]@);
                match subnets[j].lookup_hotkey(u as u16) {
                    Some(h) => {
                        if ledger.find(h).is_none() {
                            assert(views[j as int].keys[u as int] is Some);
                            return None;
                        }
                    },
                    None => {},
                }
                u = u + 1;
            }
            j = j + 1;
        }
        proof {
            lemma_take_all(ratios(views));
        }
        Some(Pallet { config, blocks_per_step, subnets, ledger })
    }

    /// Takes the state apart.
    pub fn into_parts(self) -> (parts: (Config, u64, Vec<Subnet>, Ledger))
        ensures
            parts.0 == self@.config,
            parts.1 == self@.blocks_per_step,
            parts.2@.map_values(|s: Subnet| s@) == self@.subnets,
            parts.3@ == self@.ledger,
    {
        (self.config, self.blocks_per_step, self.subnets, self.ledger)
    }

    /// The values that the state was configured with.
    pub fn config(&self) -> (r: Config)
        ensures
            r == self@.config,
    {
        self.config
    }

    /// The number of blocks per step.
    pub fn blocks_per_step(&self) -> (r: u64)
        ensures
            r == self@.blocks_per_step,
    {
        self.blocks_per_step
    }

    /// The stake ledger.
    pub fn ledger(&self) -> (r: &Ledger)
        ensures
            r@ == self@.ledger,
    {
        &self.ledger
    }

    /// The sum of all stake.
    pub fn total_stake(&self) -> (r: u64)
        ensures
            r == self@.ledger.total_stake,
    {
        self.ledger.total_stake()
    }

    /// The subnetworks, in the order in which they were added.
    pub fn subnets(&self) -> (r: &Vec<Subnet>)
        ensures
            r@.map_values(|s: Subnet| s@) == self@.subnets,
    {
        &self.subnets
    }

    /// The subnetwork `netuid`, if it exists.
    pub fn network(&self, netuid: u16) -> (r: Option<&Subnet>)
        requires
            self@.wf(),
        ensures
            match network_of(self@.subnets, netuid) {
                Some(i) => r matches Some(s) && s@ == self@.subnets[i],
                None => r is None,
            },
    {
        match self.find_network(netuid) {
            Some(i) => Some(&self.subnets[i]),
            None => None,
        }
    }
}

/// All that is known of one neuron, in one record.
pub struct NeuronMetadata {
    /// The version of the endpoint's code.
    pub version: u32,
    /// The endpoint's address, of version 4 or 6, as a number.
    pub ip: u128,
    /// The endpoint's port.
    pub port: u16,
    /// 4 or 6, for the version of the endpoint's address.
    pub ip_type: u8,
    /// The uid of the neuron in its subnetwork.
    pub uid: u32,
    /// The kind of data that the endpoint processes.
    pub modality: u8,
    /// The hotkey, which registers and sets weights.
    pub hotkey: AccountId,
    /// The coldkey, which alone may move the stake.
    pub coldkey: AccountId,
    /// 1 where the neuron takes part in the epoch, else 0.
    pub active: u32,
    /// The block at which the neuron last changed.
    pub last_update: u64,
    /// The priority of the neuron's transactions; this library keeps none,
    /// so it is zero.
    pub priority: u64,
    pub stake: u64,
    pub rank: u64,
    pub trust: u64,
    pub consensus: u64,
    pub incentive: u64,
    pub dividends: u64,
    /// What the last epoch paid to the neuron.
    pub emission: u64,
    pub bonds: Vec<(u32, u64)>,
    pub weights: Vec<(u32, u32)>,
}

/// A row of weights with its numbers widened to 32 bits.
pub open spec fn wide_weights(row: Seq<(u16, u16)>) -> Seq<(u32, u32)> {
    row.map_values(|e: (u16, u16)| (e.0 as u32, e.1 as u32))
}

/// A row of bonds with its targets widened to 32 bits and its values to 64.
pub open spec fn wide_bonds(row: Seq<(u16, u16)>) -> Seq<(u32, u64)> {
    row.map_values(|e: (u16, u16)| (e.0 as u32, e.1 as u64))
}

impl PalletView {
    /// Whether `m` is the record of the neuron at `uid` in subnetwork `i`.
    pub open spec fn describes(self, i: int, uid: int, m: NeuronMetadata) -> bool {
        let s = self.subnets[i];
        let hotkey = s.keys[uid].unwrap();
        let a = self.ledger.accounts[index_of(self.ledger.accounts, hotkey).unwrap()];
        &&& m.version == a.axon.version
        &&& m.ip == a.axon.ip
        &&& m.port == a.axon.port
        &&& m.ip_type == a.axon.ip_type
        &&& m.modality == a.axon.modality
        &&& m.uid == uid
        &&& m.hotkey == hotkey
        &&& m.coldkey == a.coldkey
        &&& m.active == if s.active[uid] {
            1u32
        } else {
            0u32
        }
        &&& m.last_update == s.last_update[uid]
        &&& m.priority == 0
        &&& m.stake == a.stake
        &&& m.rank == s.rank[uid]
        &&& m.trust == s.trust[uid]
        &&& m.consensus == s.consensus[uid]
        &&& m.incentive == s.incentive[uid]
        &&& m.dividends == s.dividends[uid]
        &&& m.emission == s.emission[uid]
        &&& m.bonds@ == wide_bonds(s.bonds[uid])
        &&& m.weights@ == wide_weights(s.weights[uid])
    }
}

/// Widens the numbers of a row of weights to 32 bits.
fn widen_weights(row: &Vec<(u16, u16)>) -> (r: Vec<(u32, u32)>)
    ensures
        r@ == wide_weights(row@),
{
    let mut r: Vec<(u32, u32)> = Vec::new();
    let mut k: usize = 0;
    while k < row.len()
        invariant
            k <= row.len(),
            r.len() == k,
            forall|x: int| 0 <= x < k ==> r@[x] == wide_weights(row@)[x],
        decreases row.len() - k,
    {
        let e: (u16, u16) = row[k];
        r.push((e.0 as u32, e.1 as u32));
        k = k + 1;
    }
    proof {
        assert(r@ =~= wide_weights(row@));
    }
    r
}

/// Widens the targets of a row of bonds to 32 bits and its values to 64.
fn widen_bonds(row: &Vec<(u16, u16)>) -> (r: Vec<(u32, u64)>)
    ensures
        r@ == wide_bonds(row@),
{
    let mut r: Vec<(u32, u64)> = Vec::new();
    let mut k: usize = 0;
    while k < row.len()
        invariant
            k <= row.len(),
            r.len() == k,
            forall|x: int| 0 <= x < k ==> r@[x] == wide_bonds(row@)[x],
        decreases row.len() - k,
    {
        let e: (u16, u16) = row[k];
        r.push((e.0 as u32, e.1 as u64));
        k = k + 1;
    }
    proof {
        assert(r@ =~= wide_bonds(row@));
    }
    r
}

impl Pallet {
    /// Gathers all that is known of the neuron at `uid` in the subnetwork
    /// `netuid`. There is nothing where the subnetwork does not exist or
    /// the slot is free.
    pub fn neuron(&self, netuid: u16, uid: u16) -> (r: Option<NeuronMetadata>)
        requires
            self@.wf(),
        ensures
            match network_of(self@.subnets, netuid) {
                Some(i) => if is_live(self@.subnets[i].keys, uid as int) {
                    r matches Some(m) && self@.describes(i, uid as int, m)
                } else {
                    r is None
                },
                None => r is None,
            },
    {
        let i: usize = match self.find_network(netuid) {
            Some(i) => i,
            None => {
                return None;
            },
        };
        let s: &Subnet = &self.subnets[i];
        let hotkey: AccountId = match s.lookup_hotkey(uid) {
            Some(h) => h,
            None => {
                return None;
            },
        };
        let u: usize = uid as usize;
        assert(self@.subnets[i as int].wf());
        assert(self@.subnets[i as int].keys[u as int] is Some);
        let a: usize = match self.ledger.find(hotkey) {
            Some(a) => a,
            None => {
                return None;
            },
        };
        let account: Account = self.ledger.account(a);
        let weights: &Vec<Vec<(u16, u16)>> = s.weights();
        let bonds: &Vec<Vec<(u16, u16)>> = s.bonds();
        assert(rows_view(weights@)[u as int] == weights@[u as int]@);
        assert(rows_view(bonds@)[u as int] == bonds@[u as int]@);
        Some(
            NeuronMetadata {
                version: account.axon.version,
                ip: account.axon.ip,
                port: account.axon.port,
                ip_type: account.axon.ip_type,
                uid: uid as u32,
                modality: account.axon.modality,
                hotkey,
                coldkey: account.coldkey,
                active: if s.active()[u] {
                    1
                } else {
                    0
                },
                last_update: s.last_update()[u],
                priority: 0,
                stake: account.stake,
                rank: s.rank()[u] as u64,
                trust: s.trust()[u] as u64,
                consensus: s.consensus()[u] as u64,
                incentive: s.incentive()[u] as u64,
                dividends: s.dividends()[u] as u64,
                emission: s.emission()[u],
                bonds: widen_bonds(&bonds[u]),
                weights: widen_weights(&weights[u]),
            },
        )
    }
}

} // verus!
