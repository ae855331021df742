//! One subnetwork: its slots, the neurons seated in them, and the rows of
//! weights and bonds between them.
//!
//! A uid is the index of a slot. A slot is free or holds the hotkey of one
//! neuron; a hotkey holds at most one slot. Rows name their targets by uid,
//! and no row names a free slot.

use vstd::prelude::*;
use crate::epoch::compute;
use crate::epoch::entry;
use crate::epoch::lemma_ema_zero;
use crate::epoch::lemma_emission_le_budget;
use crate::epoch::lemma_entry_absent;
use crate::epoch::lemma_entry_unique;
use crate::epoch::row_ok;
use crate::epoch::Graph;
use crate::epoch::Hyper;
use crate::epoch::Scores;
use crate::fixed::lemma_sum_le;
use crate::fixed::nats;
use crate::fixed::nats16;
use crate::fixed::sum;
use crate::types::AccountId;
use crate::types::Error;
use crate::weights::all_live;
use crate::weights::has_duplicate;
use crate::weights::has_duplicates;
use crate::weights::is_live;
use crate::weights::row_targets;
use crate::weights::row_wf;
use crate::weights::rows_view;
use crate::weights::targets_live;
use crate::weights::targets_of;
use crate::weights::verdict;

verus! {

/// How many slots hold a neuron.
pub open spec fn occupied(keys: Seq<Option<AccountId>>) -> nat
    decreases keys.len(),
{
    if keys.len() == 0 {
        0
    } else {
        occupied(keys.drop_last()) + if keys.last() is Some {
            1nat
        } else {
            0nat
        }
    }
}

/// Whether no hotkey holds two slots.
pub open spec fn distinct_keys(keys: Seq<Option<AccountId>>) -> bool {
    forall|u: int, v: int|
        0 <= u < keys.len() && 0 <= v < keys.len() && keys[u] is Some && keys[u] == keys[v] ==> u
            == v
}

/// The hotkey seated at `uid`, if the slot exists and is taken.
pub open spec fn hotkey_at(keys: Seq<Option<AccountId>>, uid: int) -> Option<AccountId> {
    if 0 <= uid < keys.len() {
        keys[uid]
    } else {
        None
    }
}

/// Whether `hotkey` is seated at `uid`.
pub open spec fn seated_at(keys: Seq<Option<AccountId>>, uid: int, hotkey: AccountId) -> bool {
    0 <= uid < keys.len() && keys[uid] == Some(hotkey)
}

/// The uid at which `hotkey` is seated, if it is seated at all.
pub open spec fn uid_of(keys: Seq<Option<AccountId>>, hotkey: AccountId) -> Option<int> {
    if exists|u: int| seated_at(keys, u, hotkey) {
        Some(choose|u: int| seated_at(keys, u, hotkey))
    } else {
        None
    }
}

/// Whether a neuron can be seated at `uid` without unseating another: the
/// slot is free, or it is the next one and the subnetwork may still grow.
pub open spec fn is_free(keys: Seq<Option<AccountId>>, max_n: u16, uid: int) -> bool {
    ||| 0 <= uid < keys.len() && keys[uid] is None
    ||| uid == keys.len() && uid < max_n
}

/// Whether `uid` is the lowest uid at which a neuron can be seated without
/// unseating another.
pub open spec fn is_lowest_free(keys: Seq<Option<AccountId>>, max_n: u16, uid: int) -> bool {
    &&& is_free(keys, max_n, uid)
    &&& forall|v: int| 0 <= v < uid ==> !is_free(keys, max_n, v)
}

/// `s` with `x` at index `i`: in place of the entry there, or appended where
/// `i` is the length of `s`.
pub open spec fn put<A>(s: Seq<A>, i: int, x: A) -> Seq<A> {
    if i == s.len() {
        s.push(x)
    } else {
        s.update(i, x)
    }
}

/// `row` without the entries whose target is `uid`.
pub open spec fn without(row: Seq<(u16, u16)>, uid: u16) -> Seq<(u16, u16)>
    decreases row.len(),
{
    if row.len() == 0 {
        row
    } else {
        let rest = without(row.drop_last(), uid);
        if row.last().0 == uid {
            rest
        } else {
            rest.push(row.last())
        }
    }
}

/// Every row without the entries whose target is `uid`.
pub open spec fn all_without(rows: Seq<Seq<(u16, u16)>>, uid: u16) -> Seq<Seq<(u16, u16)>> {
    Seq::new(rows.len(), |i: int| without(rows[i], uid))
}

/// The state of a subnetwork as plain mathematical values.
pub struct SubnetView {
    /// The identifier of the subnetwork.
    pub netuid: u16,
    /// The largest number of slots that the subnetwork may have.
    pub max_n: u16,
    /// The number of slots that hold a neuron.
    pub n: u16,
    /// For each slot the hotkey seated there, if any.
    pub keys: Seq<Option<AccountId>>,
    /// For each slot whether its neuron takes part in the epoch.
    pub active: Seq<bool>,
    /// For each slot the block at which its neuron last changed.
    pub last_update: Seq<u64>,
    /// For each slot the weights that its neuron gives to others.
    pub weights: Seq<Seq<(u16, u16)>>,
    /// For each slot the bonds that its neuron holds in others.
    pub bonds: Seq<Seq<(u16, u16)>>,
    pub rank: Seq<u16>,
    pub trust: Seq<u16>,
    pub consensus: Seq<u16>,
    pub incentive: Seq<u16>,
    pub dividends: Seq<u16>,
    pub emission: Seq<u64>,
    /// The numbers that steer the epochs of this subnetwork.
    pub hyper: Hyper,
    /// The number of blocks between two epochs.
    pub tempo: u16,
    /// The fraction of the global emission that goes to this subnetwork.
    pub emission_ratio: u16,
    /// The block at which the last epoch ran.
    pub last_epoch: u64,
}

impl SubnetView {
    /// Whether every per-slot vector has one entry for each slot.
    pub open spec fn aligned(self) -> bool {
        &&& self.active.len() == self.keys.len()
        &&& self.last_update.len() == self.keys.len()
        &&& self.weights.len() == self.keys.len()
        &&& self.bonds.len() == self.keys.len()
        &&& self.rank.len() == self.keys.len()
        &&& self.trust.len() == self.keys.len()
        &&& self.consensus.len() == self.keys.len()
        &&& self.incentive.len() == self.keys.len()
        &&& self.dividends.len() == self.keys.len()
        &&& self.emission.len() == self.keys.len()
    }

    /// The invariant of a subnetwork: the vectors are aligned, the slot count
    /// is the number of seated neurons and within the maximum, no hotkey is
    /// seated twice, every row is well formed, and a free slot is inactive
    /// and has empty rows.
    pub open spec fn wf(self) -> bool {
        &&& self.aligned()
        &&& self.keys.len() <= self.max_n
        &&& self.n == occupied(self.keys)
        &&& distinct_keys(self.keys)
        &&& forall|u: int|
            0 <= u < self.keys.len() ==> row_wf(#[trigger] self.weights[u], self.keys)
        &&& forall|u: int| 0 <= u < self.keys.len() ==> row_wf(#[trigger] self.bonds[u], self.keys)
        &&& forall|u: int|
            0 <= u < self.keys.len() && (#[trigger] self.keys[u]) is None ==> !self.active[u]
                && self.weights[u].len() == 0 && self.bonds[u].len() == 0
    }

    /// A subnetwork without slots.
    pub open spec fn empty(netuid: u16, max_n: u16, hyper: Hyper, tempo: u16) -> SubnetView {
        SubnetView {
            netuid,
            max_n,
            n: 0,
            keys: Seq::empty(),
            active: Seq::empty(),
            last_update: Seq::empty(),
            weights: Seq::empty(),
            bonds: Seq::empty(),
            rank: Seq::empty(),
            trust: Seq::empty(),
            consensus: Seq::empty(),
            incentive: Seq::empty(),
            dividends: Seq::empty(),
            emission: Seq::empty(),
            hyper,
            tempo,
            emission_ratio: 0,
            last_epoch: 0,
        }
    }

    /// The subnetwork after `hotkey` took the free slot `uid` at block
    /// `block`: the slot is active, its rows are empty and its scores zero,
    /// and all other slots are as they were.
    pub open spec fn seated(self, uid: int, hotkey: AccountId, block: u64) -> SubnetView {
        SubnetView {
            n: (self.n + 1) as u16,
            keys: put(self.keys, uid, Some(hotkey)),
            active: put(self.active, uid, true),
            last_update: put(self.last_update, uid, block),
            weights: put(self.weights, uid, Seq::empty()),
            bonds: put(self.bonds, uid, Seq::empty()),
            rank: put(self.rank, uid, 0u16),
            trust: put(self.trust, uid, 0u16),
            consensus: put(self.consensus, uid, 0u16),
            incentive: put(self.incentive, uid, 0u16),
            dividends: put(self.dividends, uid, 0u16),
            emission: put(self.emission, uid, 0u64),
            ..self
        }
    }

    /// The subnetwork after `hotkey` claimed the slot `uid` at block
    /// `block`: the neuron that sat there, if any, left first, so that no
    /// row names the uid any more, and then `hotkey` took the free slot.
    /// What others gave to the neuron that left does not pass to the one
    /// that came.
    pub open spec fn claimed(self, uid: int, hotkey: AccountId, block: u64) -> SubnetView {
        if is_live(self.keys, uid) {
            self.vacated(uid).seated(uid, hotkey, block)
        } else {
            self.seated(uid, hotkey, block)
        }
    }

    /// The subnetwork after the neuron at `uid` left: the slot is free and
    /// cleared, and no row names it any more.
    pub open spec fn vacated(self, uid: int) -> SubnetView {
        SubnetView {
            n: (self.n - 1) as u16,
            keys: self.keys.update(uid, None),
            active: self.active.update(uid, false),
            weights: all_without(self.weights, uid as u16).update(uid, Seq::empty()),
            bonds: all_without(self.bonds, uid as u16).update(uid, Seq::empty()),
            rank: self.rank.update(uid, 0u16),
            trust: self.trust.update(uid, 0u16),
            consensus: self.consensus.update(uid, 0u16),
            incentive: self.incentive.update(uid, 0u16),
            dividends: self.dividends.update(uid, 0u16),
            emission: self.emission.update(uid, 0u64),
            ..self
        }
    }

    /// The subnetwork after the neuron at `uid` set its weights to `row`.
    pub open spec fn with_weights(self, uid: int, row: Seq<(u16, u16)>) -> SubnetView {
        SubnetView { weights: self.weights.update(uid, row), ..self }
    }
}

/// Appending a slot adds one to the count where the slot is taken.
pub proof fn lemma_occupied_push(keys: Seq<Option<AccountId>>, k: Option<AccountId>)
    ensures
        occupied(keys.push(k)) == occupied(keys) + if k is Some {
            1nat
        } else {
            0nat
        },
{
    assert(keys.push(k).drop_last() =~= keys);
}

/// Changing one slot changes the count by that slot alone.
pub proof fn lemma_occupied_update(keys: Seq<Option<AccountId>>, i: int, k: Option<AccountId>)
    requires
        0 <= i < keys.len(),
    ensures
        occupied(keys.update(i, k)) + (if keys[i] is Some {
            1nat
        } else {
            0nat
        }) == occupied(keys) + (if k is Some {
            1nat
        } else {
            0nat
        }),
    decreases keys.len(),
{
    if i == keys.len() - 1 {
        assert(keys.update(i, k).drop_last() =~= keys.drop_last());
    } else {
        lemma_occupied_update(keys.drop_last(), i, k);
        assert(keys.update(i, k).drop_last() =~= keys.drop_last().update(i, k));
    }
}

/// No more slots are taken than there are, and fewer where one is free.
pub proof fn lemma_occupied_le(keys: Seq<Option<AccountId>>)
    ensures
        occupied(keys) <= keys.len(),
        (exists|u: int| 0 <= u < keys.len() && keys[u] is None) ==> occupied(keys) < keys.len(),
        occupied(keys) < keys.len() ==> exists|u: int| 0 <= u < keys.len() && keys[u] is None,
    decreases keys.len(),
{
    if keys.len() > 0 {
        let p = keys.drop_last();
        lemma_occupied_le(p);
        if exists|u: int| 0 <= u < keys.len() && keys[u] is None {
            let u = choose|u: int| 0 <= u < keys.len() && keys[u] is None;
            if u < p.len() {
                assert(p[u] is None);
            }
        }
        if occupied(keys) < keys.len() {
            if keys.last() is None {
                assert(keys[keys.len() - 1] is None);
            } else {
                let u = choose|u: int| 0 <= u < p.len() && p[u] is None;
                assert(keys[u] is None);
            }
        }
    }
}

/// A hotkey is seated at the uid that is looked up for it, and a uid that
/// holds a hotkey is the one looked up for that hotkey: the two lookups are
/// inverse to each other.
pub proof fn lemma_lookup_inverse(keys: Seq<Option<AccountId>>, hotkey: AccountId, uid: int)
    requires
        distinct_keys(keys),
    ensures
        uid_of(keys, hotkey) == Some(uid) <==> hotkey_at(keys, uid) == Some(hotkey),
        uid_of(keys, hotkey) is Some ==> hotkey_at(keys, uid_of(keys, hotkey).unwrap()) == Some(
            hotkey,
        ),
{
    if hotkey_at(keys, uid) == Some(hotkey) {
        assert(seated_at(keys, uid, hotkey));
    }
}

/// Removing the entries for one target leaves entries of the row, none of
/// them for that target, and leaves distinct targets distinct.
pub proof fn lemma_without(row: Seq<(u16, u16)>, uid: u16)
    ensures
        without(row, uid).len() <= row.len(),
        forall|k: int|
            0 <= k < without(row, uid).len() ==> (#[trigger] without(row, uid)[k]).0 != uid
                && row.contains(without(row, uid)[k]),
        !has_duplicates(row_targets(row)) ==> !has_duplicates(row_targets(without(row, uid))),
    decreases row.len(),
{
    if row.len() > 0 {
        let p = row.drop_last();
        let rest = without(p, uid);
        let f = without(row, uid);
        lemma_without(p, uid);
        assert forall|k: int| 0 <= k < f.len() implies (#[trigger] f[k]).0 != uid && row.contains(
            f[k],
        ) by {
            if k < rest.len() {
                assert(f[k] == rest[k]);
                assert(p.contains(rest[k]));
                let i = choose|i: int| 0 <= i < p.len() && p[i] == rest[k];
                assert(row[i] == f[k]);
            } else {
                assert(f[k] == row[row.len() - 1]);
            }
        }
        if !has_duplicates(row_targets(row)) {
            assert(!has_duplicates(row_targets(p))) by {
                if has_duplicates(row_targets(p)) {
                    let (a, b) = choose|a: int, b: int|
                        0 <= a < b < row_targets(p).len() && row_targets(p)[a] == row_targets(p)[b];
                    assert(row_targets(row)[a] == row_targets(row)[b]);
                }
            }
            assert forall|a: int, b: int| 0 <= a < b < row_targets(f).len() implies row_targets(
                f,
            )[a] != row_targets(f)[b] by {
                if b < rest.len() {
                    assert(row_targets(rest)[a] != row_targets(rest)[b]);
                } else {
                    assert(p.contains(rest[a]));
                    let i = choose|i: int| 0 <= i < p.len() && p[i] == rest[a];
                    assert(row_targets(row)[i] != row_targets(row)[row.len() - 1]);
                }
            }
        }
    }
}

/// A well-formed row stays well formed when a neuron leaves and the entries
/// for it are removed.
pub proof fn lemma_without_wf(row: Seq<(u16, u16)>, uid: u16, keys: Seq<Option<AccountId>>)
    requires
        row_wf(row, keys),
        uid < keys.len(),
    ensures
        row_wf(without(row, uid), keys.update(uid as int, None)),
{
    lemma_without(row, uid);
    let f = without(row, uid);
    assert forall|k: int| 0 <= k < row_targets(f).len() implies is_live(
        keys.update(uid as int, None),
        #[trigger] row_targets(f)[k] as int,
    ) by {
        assert(f[k].0 != uid);
        assert(row.contains(f[k]));
        let i = choose|i: int| 0 <= i < row.len() && row[i] == f[k];
        assert(is_live(keys, row_targets(row)[i] as int));
    }
}

/// Seating a hotkey that holds no slot in a free slot keeps the subnetwork
/// well formed.
pub proof fn lemma_seated_wf(s: SubnetView, uid: int, hotkey: AccountId, block: u64)
    requires
        s.wf(),
        0 <= uid <= s.keys.len(),
        uid < s.max_n,
        !is_live(s.keys, uid),
        forall|u: int| !seated_at(s.keys, u, hotkey),
    ensures
        s.seated(uid, hotkey, block).wf(),
        s.n < s.max_n,
{
    let t = s.seated(uid, hotkey, block);
    lemma_occupied_le(s.keys);
    if uid == s.keys.len() {
        lemma_occupied_push(s.keys, Some(hotkey));
    } else {
        lemma_occupied_update(s.keys, uid, Some(hotkey));
    }
    assert(distinct_keys(t.keys)) by {
        assert forall|u: int, v: int|
            0 <= u < t.keys.len() && 0 <= v < t.keys.len() && t.keys[u] is Some && t.keys[u]
                == t.keys[v] implies u == v by {
            if u != v {
                if u == uid {
                    assert(seated_at(s.keys, v, hotkey));
                } else if v == uid {
                    assert(seated_at(s.keys, u, hotkey));
                }
            }
        }
    }
    assert forall|u: int| 0 <= u < t.keys.len() implies row_wf(#[trigger] t.weights[u], t.keys) by {
        if u != uid {
            lemma_row_wf_grows(s.weights[u], s.keys, t.keys);
        }
    }
    assert forall|u: int| 0 <= u < t.keys.len() implies row_wf(#[trigger] t.bonds[u], t.keys) by {
        if u != uid {
            lemma_row_wf_grows(s.bonds[u], s.keys, t.keys);
        }
    }
    assert forall|u: int| 0 <= u < t.keys.len() && (#[trigger] t.keys[u]) is None implies
        !t.active[u] && t.weights[u].len() == 0 && t.bonds[u].len() == 0 by {
        assert(u != uid);
        assert(s.keys[u] is None);
    }
}

/// Claiming a slot for a hotkey that holds none keeps the subnetwork well
/// formed, and leaves no row that names the slot: what others gave to the
/// neuron that sat there does not pass to the one that comes.
pub proof fn lemma_claimed_wf(s: SubnetView, uid: int, hotkey: AccountId, block: u64)
    requires
        s.wf(),
        0 <= uid <= s.keys.len(),
        uid < s.max_n,
        forall|u: int| !seated_at(s.keys, u, hotkey),
    ensures
        s.claimed(uid, hotkey, block).wf(),
        forall|u: int|
            is_live(s.keys, uid) ==> !seated_at(s.vacated(uid).keys, u, hotkey),
        forall|u: int, k: int|
            0 <= u < s.claimed(uid, hotkey, block).weights.len() && 0 <= k < s.claimed(
                uid,
                hotkey,
                block,
            ).weights[u].len() ==> (#[trigger] s.claimed(uid, hotkey, block).weights[u][k]).0
                != uid,
        forall|u: int, k: int|
            0 <= u < s.claimed(uid, hotkey, block).bonds.len() && 0 <= k < s.claimed(
                uid,
                hotkey,
                block,
            ).bonds[u].len() ==> (#[trigger] s.claimed(uid, hotkey, block).bonds[u][k]).0 != uid,
{
    let t = s.claimed(uid, hotkey, block);
    if is_live(s.keys, uid) {
        let v = s.vacated(uid);
        lemma_vacated_wf(s, uid);
        assert forall|u: int| !seated_at(v.keys, u, hotkey) by {
            if seated_at(v.keys, u, hotkey) {
                assert(seated_at(s.keys, u, hotkey));
            }
        }
        lemma_seated_wf(v, uid, hotkey, block);
        assert forall|u: int, k: int| 0 <= u < t.weights.len() && 0 <= k < t.weights[u].len() implies (
        #[trigger] t.weights[u][k]).0 != uid by {
            assert(t.weights[u] == v.weights[u]);
        }
        assert forall|u: int, k: int| 0 <= u < t.bonds.len() && 0 <= k < t.bonds[u].len() implies (
        #[trigger] t.bonds[u][k]).0 != uid by {
            assert(t.bonds[u] == v.bonds[u]);
        }
    } else {
        lemma_seated_wf(s, uid, hotkey, block);
        assert forall|u: int, k: int| 0 <= u < t.weights.len() && 0 <= k < t.weights[u].len() implies (
        #[trigger] t.weights[u][k]).0 != uid by {
            if u != uid {
                assert(row_wf(s.weights[u], s.keys));
                assert(is_live(s.keys, row_targets(s.weights[u])[k] as int));
            }
        }
        assert forall|u: int, k: int| 0 <= u < t.bonds.len() && 0 <= k < t.bonds[u].len() implies (
        #[trigger] t.bonds[u][k]).0 != uid by {
            if u != uid {
                assert(row_wf(s.bonds[u], s.keys));
                assert(is_live(s.keys, row_targets(s.bonds[u])[k] as int));
            }
        }
    }
}

/// A well-formed row stays well formed while every neuron that was seated
/// stays seated.
pub proof fn lemma_row_wf_grows(
    row: Seq<(u16, u16)>,
    keys: Seq<Option<AccountId>>,
    later: Seq<Option<AccountId>>,
)
    requires
        row_wf(row, keys),
        forall|u: int| is_live(keys, u) ==> is_live(later, u),
    ensures
        row_wf(row, later),
{
    assert forall|k: int| 0 <= k < row_targets(row).len() implies is_live(
        later,
        #[trigger] row_targets(row)[k] as int,
    ) by {
        assert(is_live(keys, row_targets(row)[k] as int));
    }
}

/// When a neuron leaves, the subnetwork stays well formed, and no row that
/// remains names the slot that was freed.
pub proof fn lemma_vacated_wf(s: SubnetView, uid: int)
    requires
        s.wf(),
        is_live(s.keys, uid),
    ensures
        s.vacated(uid).wf(),
        s.n > 0,
        forall|u: int, k: int|
            0 <= u < s.keys.len() && 0 <= k < s.vacated(uid).weights[u].len() ==> (
            #[trigger] s.vacated(uid).weights[u][k]).0 != uid,
        forall|u: int, k: int|
            0 <= u < s.keys.len() && 0 <= k < s.vacated(uid).bonds[u].len() ==> (
            #[trigger] s.vacated(uid).bonds[u][k]).0 != uid,
{
    let t = s.vacated(uid);
    lemma_occupied_update(s.keys, uid, None);
    assert forall|u: int| 0 <= u < t.keys.len() implies row_wf(#[trigger] t.weights[u], t.keys) by {
        if u != uid {
            lemma_without_wf(s.weights[u], uid as u16, s.keys);
        }
    }
    assert forall|u: int| 0 <= u < t.keys.len() implies row_wf(#[trigger] t.bonds[u], t.keys) by {
        if u != uid {
            lemma_without_wf(s.bonds[u], uid as u16, s.keys);
        }
    }
    assert forall|u: int| 0 <= u < t.keys.len() && (#[trigger] t.keys[u]) is None implies
        !t.active[u] && t.weights[u].len() == 0 && t.bonds[u].len() == 0 by {
        if u != uid {
            assert(s.keys[u] is None);
            lemma_without(s.weights[u], uid as u16);
            lemma_without(s.bonds[u], uid as u16);
        }
    }
    assert forall|u: int, k: int| 0 <= u < s.keys.len() && 0 <= k < t.weights[u].len() implies (
    #[trigger] t.weights[u][k]).0 != uid by {
        if u != uid {
            lemma_without(s.weights[u], uid as u16);
        }
    }
    assert forall|u: int, k: int| 0 <= u < s.keys.len() && 0 <= k < t.bonds[u].len() implies (
    #[trigger] t.bonds[u][k]).0 != uid by {
        if u != uid {
            lemma_without(s.bonds[u], uid as u16);
        }
    }
}

/// Setting a well-formed row keeps the subnetwork well formed.
pub proof fn lemma_with_weights_wf(s: SubnetView, uid: int, row: Seq<(u16, u16)>)
    requires
        s.wf(),
        is_live(s.keys, uid),
        row_wf(row, s.keys),
    ensures
        s.with_weights(uid, row).wf(),
{
}

/// Whether the neuron at `u` is reclaimed before the one at `v`: it has
/// less stake, or as much stake and less emission, or as much of both and
/// the lower uid.
pub open spec fn before(stakes: Seq<u64>, emission: Seq<u64>, u: int, v: int) -> bool {
    ||| stakes[u] < stakes[v]
    ||| stakes[u] == stakes[v] && emission[u] < emission[v]
    ||| stakes[u] == stakes[v] && emission[u] == emission[v] && u < v
}

/// Whether the neuron at `u` is the one to unseat when a slot must be
/// reclaimed: it is reclaimed before every other seated neuron.
pub open spec fn is_prune_target(
    keys: Seq<Option<AccountId>>,
    stakes: Seq<u64>,
    emission: Seq<u64>,
    u: int,
) -> bool {
    &&& is_live(keys, u)
    &&& forall|v: int| is_live(keys, v) && v != u ==> before(stakes, emission, u, v)
}

/// Removes from a row the entries whose target is `uid`.
pub fn purge(row: &Vec<(u16, u16)>, uid: u16) -> (r: Vec<(u16, u16)>)
    ensures
        r@ == without(row@, uid),
{
    let mut r: Vec<(u16, u16)> = Vec::new();
    let mut k: usize = 0;
    while k < row.len()
        invariant
            k <= row.len(),
            r@ == without(row@.take(k as int), uid),
        decreases row.len() - k,
    {
        proof {
            crate::fixed::lemma_take_step(row@, k as int);
        }
        let e: (u16, u16) = row[k];
        if e.0 != uid {
            r.push(e);
        }
        k = k + 1;
    }
    proof {
        crate::fixed::lemma_take_all(row@);
    }
    r
}

/// Removes from every row the entries whose target is `uid`.
pub fn purge_all(rows: &Vec<Vec<(u16, u16)>>, uid: u16) -> (r: Vec<Vec<(u16, u16)>>)
    ensures
        rows_view(r@) == all_without(rows_view(rows@), uid),
{
    let mut r: Vec<Vec<(u16, u16)>> = Vec::new();
    let mut i: usize = 0;
    while i < rows.len()
        invariant
            i <= rows.len(),
            r.len() == i,
            forall|u: int| 0 <= u < i ==> (#[trigger] r@[u])@ == without(rows@[u]@, uid),
        decreases rows.len() - i,
    {
        let row: Vec<(u16, u16)> = purge(&rows[i], uid);
        r.push(row);
        i = i + 1;
    }
    proof {
        assert(rows_view(r@) =~= all_without(rows_view(rows@), uid));
    }
    r
}

/// A subnetwork.
pub struct Subnet {
    netuid: u16,
    max_n: u16,
    n: u16,
    keys: Vec<Option<AccountId>>,
    active: Vec<bool>,
    last_update: Vec<u64>,
    weights: Vec<Vec<(u16, u16)>>,
    bonds: Vec<Vec<(u16, u16)>>,
    rank: Vec<u16>,
    trust: Vec<u16>,
    consensus: Vec<u16>,
    incentive: Vec<u16>,
    dividends: Vec<u16>,
    emission: Vec<u64>,
    hyper: Hyper,
    tempo: u16,
    emission_ratio: u16,
    last_epoch: u64,
}

impl View for Subnet {
    type V = SubnetView;

    closed spec fn view(&self) -> SubnetView {
        SubnetView {
            netuid: self.netuid,
            max_n: self.max_n,
            n: self.n,
            keys: self.keys@,
            active: self.active@,
            last_update: self.last_update@,
            weights: rows_view(self.weights@),
            bonds: rows_view(self.bonds@),
            rank: self.rank@,
            trust: self.trust@,
            consensus: self.consensus@,
            incentive: self.incentive@,
            dividends: self.dividends@,
            emission: self.emission@,
            hyper: self.hyper,
            tempo: self.tempo,
            emission_ratio: self.emission_ratio,
            last_epoch: self.last_epoch,
        }
    }
}

impl Subnet {
    /// Makes a subnetwork without slots.
    pub fn new(netuid: u16, max_n: u16, hyper: Hyper, tempo: u16) -> (s: Subnet)
        ensures
            s@ == SubnetView::empty(netuid, max_n, hyper, tempo),
            s@.wf(),
    {
        let s = Subnet {
            netuid,
            max_n,
            n: 0,
            keys: Vec::new(),
            active: Vec::new(),
            last_update: Vec::new(),
            weights: Vec::new(),
            bonds: Vec::new(),
            rank: Vec::new(),
            trust: Vec::new(),
            consensus: Vec::new(),
            incentive: Vec::new(),
            dividends: Vec::new(),
            emission: Vec::new(),
            hyper,
            tempo,
            emission_ratio: 0,
            last_epoch: 0,
        };
        proof {
            assert(s@.weights =~= Seq::empty());
            assert(s@.bonds =~= Seq::empty());
        }
        s
    }

    /// Looks up the uid at which `hotkey` is seated.
    pub fn lookup_uid(&self, hotkey: AccountId) -> (r: Option<u16>)
        requires
            self@.wf(),
        ensures
            match r {
                Some(u) => uid_of(self@.keys, hotkey) == Some(u as int),
                None => uid_of(self@.keys, hotkey) is None,
            },
    {
        let mut i: usize = 0;
        while i < self.keys.len()
            invariant
                i <= self.keys.len(),
                self@.wf(),
                forall|u: int| 0 <= u < i ==> !seated_at(self@.keys, u, hotkey),
            decreases self.keys.len() - i,
        {
            let found: bool = match self.keys[i] {
                Some(k) => k == hotkey,
                None => false,
            };
            if found {
                proof {
                    lemma_lookup_inverse(self@.keys, hotkey, i as int);
                }
                return Some(i as u16);
            }
            i = i + 1;
        }
        None
    }

    /// Looks up the hotkey that is seated at `uid`.
    pub fn lookup_hotkey(&self, uid: u16) -> (r: Option<AccountId>)
        ensures
            r == hotkey_at(self@.keys, uid as int),
    {
        if (uid as usize) < self.keys.len() {
            self.keys[uid as usize]
        } else {
            None
        }
    }

    /// Finds the lowest uid at which a neuron can be seated without
    /// unseating another.
    pub fn free_uid(&self) -> (r: Option<u16>)
        requires
            self@.wf(),
        ensures
            match r {
                Some(u) => is_lowest_free(self@.keys, self@.max_n, u as int),
                None => forall|v: int| !is_free(self@.keys, self@.max_n, v),
            },
    {
        let mut i: usize = 0;
        while i < self.keys.len()
            invariant
                i <= self.keys.len(),
                self@.wf(),
                forall|v: int| 0 <= v < i ==> !is_free(self@.keys, self@.max_n, v),
            decreases self.keys.len() - i,
        {
            if self.keys[i].is_none() {
                return Some(i as u16);
            }
            i = i + 1;
        }
        if i < self.max_n as usize {
            Some(i as u16)
        } else {
            None
        }
    }

    /// Finds the neuron to unseat when a slot must be reclaimed, given the
    /// stake behind each slot.
    pub fn prune_target(&self, stakes: &Vec<u64>) -> (r: Option<u16>)
        requires
            self@.wf(),
            stakes.len() == self@.keys.len(),
        ensures
            match r {
                Some(u) => is_prune_target(self@.keys, stakes@, self@.emission, u as int),
                None => forall|v: int| !is_live(self@.keys, v),
            },
    {
        let mut best: Option<usize> = None;
        let mut i: usize = 0;
        while i < self.keys.len()
            invariant
                i <= self.keys.len(),
                self@.wf(),
                stakes.len() == self@.keys.len(),
                match best {
                    Some(b) => b < i && is_live(self@.keys, b as int) && forall|v: int|
                        0 <= v < i && is_live(self@.keys, v) && v != b ==> before(
                            stakes@,
                            self@.emission,
                            b as int,
                            v,
                        ),
                    None => forall|v: int| 0 <= v < i ==> !is_live(self@.keys, v),
                },
            decreases self.keys.len() - i,
        {
            if self.keys[i].is_some() {
                match best {
                    None => {
                        best = Some(i);
                    },
                    Some(b) => {
                        if stakes[i] < stakes[b] || (stakes[i] == stakes[b] && self.emission[i]
                            < self.emission[b]) {
                            best = Some(i);
                        }
                    },
                }
            }
            i = i + 1;
        }
        match best {
            Some(b) => Some(b as u16),
            None => None,
        }
    }

    /// Seats `hotkey` at the free slot `uid`. The slot starts active, with
    /// empty rows and zero scores; every other slot is left as it is.
    pub fn seat(&mut self, uid: u16, hotkey: AccountId, block: u64)
        requires
            old(self)@.wf(),
            uid <= old(self)@.keys.len(),
            uid < old(self)@.max_n,
            !is_live(old(self)@.keys, uid as int),
            forall|u: int| !seated_at(old(self)@.keys, u, hotkey),
        ensures
            final(self)@ == old(self)@.seated(uid as int, hotkey, block),
            final(self)@.wf(),
    {
        proof {
            lemma_seated_wf(self@, uid as int, hotkey, block);
        }
        let i: usize = uid as usize;
        if i == self.keys.len() {
            self.keys.push(Some(hotkey));
            self.active.push(true);
            self.last_update.push(block);
            self.weights.push(Vec::new());
            self.bonds.push(Vec::new());
            self.rank.push(0);
            self.trust.push(0);
            self.consensus.push(0);
            self.incentive.push(0);
            self.dividends.push(0);
            self.emission.push(0);
            self.n = self.n + 1;
        } else {
            self.n = self.n + 1;
            self.keys[i] = Some(hotkey);
            self.active[i] = true;
            self.last_update[i] = block;
            self.weights[i] = Vec::new();
            self.bonds[i] = Vec::new();
            self.rank[i] = 0;
            self.trust[i] = 0;
            self.consensus[i] = 0;
            self.incentive[i] = 0;
            self.dividends[i] = 0;
            self.emission[i] = 0;
        }
        proof {
            let t = old(self)@.seated(uid as int, hotkey, block);
            assert(self@.weights =~= t.weights);
            assert(self@.bonds =~= t.bonds);
        }
    }

    /// Seats `hotkey` at `uid`, in a free slot or in place of the neuron
    /// that sits there. A neuron that sits there leaves first, and the
    /// entries for it are removed from every row, so that nothing that was
    /// given to it passes to the newcomer.
    pub fn claim(&mut self, uid: u16, hotkey: AccountId, block: u64)
        requires
            old(self)@.wf(),
            uid <= old(self)@.keys.len(),
            uid < old(self)@.max_n,
            forall|u: int| !seated_at(old(self)@.keys, u, hotkey),
        ensures
            final(self)@ == old(self)@.claimed(uid as int, hotkey, block),
            final(self)@.wf(),
            forall|u: int, k: int|
                0 <= u < final(self)@.weights.len() && 0 <= k < final(self)@.weights[u].len() ==> (
                #[trigger] final(self)@.weights[u][k]).0 != uid,
            forall|u: int, k: int|
                0 <= u < final(self)@.bonds.len() && 0 <= k < final(self)@.bonds[u].len() ==> (
                #[trigger] final(self)@.bonds[u][k]).0 != uid,
    {
        proof {
            lemma_claimed_wf(self@, uid as int, hotkey, block);
        }
        if (uid as usize) < self.keys.len() && self.keys[uid as usize].is_some() {
            proof {
                lemma_vacated_wf(self@, uid as int);
            }
            self.vacate(uid);
        }
        self.seat(uid, hotkey, block);
    }

    /// Frees the slot `uid`: its neuron leaves, the slot is cleared, and
    /// the entries for it are removed from every row.
    pub fn vacate(&mut self, uid: u16)
        requires
            old(self)@.wf(),
            is_live(old(self)@.keys, uid as int),
        ensures
            final(self)@ == old(self)@.vacated(uid as int),
            final(self)@.wf(),
    {
        proof {
            lemma_vacated_wf(self@, uid as int);
        }
        let i: usize = uid as usize;
        let mut weights: Vec<Vec<(u16, u16)>> = purge_all(&self.weights, uid);
        let mut bonds: Vec<Vec<(u16, u16)>> = purge_all(&self.bonds, uid);
        proof {
            assert(rows_view(weights@).len() == weights@.len());
            assert(rows_view(bonds@).len() == bonds@.len());
        }
        weights[i] = Vec::new();
        bonds[i] = Vec::new();
        self.weights = weights;
        self.bonds = bonds;
        self.keys[i] = None;
        self.active[i] = false;
        self.rank[i] = 0;
        self.trust[i] = 0;
        self.consensus[i] = 0;
        self.incentive[i] = 0;
        self.dividends[i] = 0;
        self.emission[i] = 0;
        self.n = self.n - 1;
        proof {
            let t = old(self)@.vacated(uid as int);
            assert(self@.weights =~= t.weights);
            assert(self@.bonds =~= t.bonds);
        }
    }

    /// Stores `row` as the weights of the neuron at `uid`.
    pub fn store_weights(&mut self, uid: u16, row: Vec<(u16, u16)>)
        requires
            old(self)@.wf(),
            is_live(old(self)@.keys, uid as int),
            row_wf(row@, old(self)@.keys),
        ensures
            final(self)@ == old(self)@.with_weights(uid as int, row@),
            final(self)@.wf(),
    {
        proof {
            lemma_with_weights_wf(self@, uid as int, row@);
        }
        self.weights[uid as usize] = row;
        proof {
            assert(self@.weights =~= old(self)@.with_weights(uid as int, row@).weights);
        }
    }
}

impl SubnetView {
    /// What an epoch of this subnetwork starts from, given the stake behind
    /// each slot and the emission to distribute.
    pub open spec fn graph(self, stake: Seq<u64>, budget: u64) -> Graph {
        Graph {
            stake,
            active: self.active,
            weights: self.weights,
            bonds: self.bonds,
            hyper: self.hyper,
            budget,
        }
    }

    /// What an epoch pays to each slot: its emission where a neuron is
    /// seated, nothing where the slot is free.
    pub open spec fn payout(self, stake: Seq<u64>, budget: u64) -> Seq<nat> {
        Seq::new(
            self.keys.len(),
            |i: int|
                if self.keys[i] is Some {
                    self.graph(stake, budget).emission()[i]
                } else {
                    0nat
                },
        )
    }

    /// Whether `after` is this subnetwork after an epoch at `block`: the
    /// scores, the bonds and the emission are those of the epoch, the epoch
    /// is recorded as run at `block`, and all else is as it was.
    pub open spec fn epoch_to(self, stake: Seq<u64>, budget: u64, block: u64, after: SubnetView) -> bool {
        let g = self.graph(stake, budget);
        &&& nats16(after.rank) == g.rank()
        &&& nats16(after.trust) == g.trust()
        &&& nats16(after.consensus) == g.consensus()
        &&& nats16(after.incentive) == g.incentive()
        &&& nats16(after.dividends) == g.dividends()
        &&& g.bonds_are(after.bonds)
        &&& nats(after.emission) == self.payout(stake, budget)
        &&& after == SubnetView {
            rank: after.rank,
            trust: after.trust,
            consensus: after.consensus,
            incentive: after.incentive,
            dividends: after.dividends,
            bonds: after.bonds,
            emission: after.emission,
            last_epoch: block,
            ..self
        }
    }
}

/// A well-formed subnetwork gives an epoch a well-formed start.
pub proof fn lemma_graph_wf(s: SubnetView, stake: Seq<u64>, budget: u64)
    requires
        s.wf(),
        stake.len() == s.keys.len(),
    ensures
        s.graph(stake, budget).wf(),
{
    let g = s.graph(stake, budget);
    assert forall|i: int| 0 <= i < g.weights.len() implies row_ok(
        #[trigger] g.weights[i],
        g.weights.len(),
    ) by {
        assert(row_wf(s.weights[i], s.keys));
        assert forall|k: int| 0 <= k < g.weights[i].len() implies (#[trigger] g.weights[i][k]).0
            < g.weights.len() by {
            assert(is_live(s.keys, row_targets(s.weights[i])[k] as int));
        }
    }
    assert forall|i: int| 0 <= i < g.bonds.len() implies row_ok(
        #[trigger] g.bonds[i],
        g.bonds.len(),
    ) by {
        assert(row_wf(s.bonds[i], s.keys));
        assert forall|k: int| 0 <= k < g.bonds[i].len() implies (#[trigger] g.bonds[i][k]).0
            < g.bonds.len() by {
            assert(is_live(s.keys, row_targets(s.bonds[i])[k] as int));
        }
    }
}

/// A row that names registered neurons only gives nothing to a free slot.
pub proof fn lemma_entry_free(row: Seq<(u16, u16)>, keys: Seq<Option<AccountId>>, j: int)
    requires
        all_live(row_targets(row), keys),
        !is_live(keys, j),
    ensures
        entry(row, j) == 0,
{
    assert forall|k: int| 0 <= k < row.len() implies (#[trigger] row[k]).0 != j by {
        assert(is_live(keys, row_targets(row)[k] as int));
    }
    lemma_entry_absent(row, j);
}

/// An epoch keeps the subnetwork well formed: the bonds after it name
/// registered neurons only, and a free slot holds none. It pays out no
/// more than its budget.
pub proof fn lemma_epoch_wf(s: SubnetView, stake: Seq<u64>, budget: u64, block: u64, after: SubnetView)
    requires
        s.wf(),
        stake.len() == s.keys.len(),
        s.epoch_to(stake, budget, block, after),
    ensures
        after.wf(),
        sum(nats(after.emission)) <= budget,
{
    let g = s.graph(stake, budget);
    let n = s.keys.len();
    lemma_graph_wf(s, stake, budget);
    assert(after.rank.len() == nats16(after.rank).len());
    assert(after.trust.len() == nats16(after.trust).len());
    assert(after.consensus.len() == nats16(after.consensus).len());
    assert(after.incentive.len() == nats16(after.incentive).len());
    assert(after.dividends.len() == nats16(after.dividends).len());
    assert(after.emission.len() == nats(after.emission).len());
    assert forall|u: int, k: int| 0 <= u < n && 0 <= k < after.bonds[u].len() implies is_live(
        s.keys,
        (#[trigger] after.bonds[u][k]).0 as int,
    ) by {
        let row = after.bonds[u];
        let t = row[k].0 as int;
        assert(row_ok(row, n));
        lemma_entry_unique(row, k);
        assert(entry(row, t) == g.bond(u, t));
        if !is_live(s.keys, t) {
            assert(row_wf(s.bonds[u], s.keys));
            assert(row_wf(s.weights[u], s.keys));
            lemma_entry_free(s.bonds[u], s.keys, t);
            assert(row_targets(g.used_row(u)) =~= row_targets(s.weights[u]));
            lemma_entry_free(g.used_row(u), s.keys, t);
            lemma_ema_zero(s.hyper.alpha as nat);
        }
    }
    assert forall|u: int| 0 <= u < n implies row_wf(#[trigger] after.bonds[u], after.keys) by {
        assert(row_ok(after.bonds[u], n));
        assert forall|k: int| 0 <= k < row_targets(after.bonds[u]).len() implies is_live(
            after.keys,
            #[trigger] row_targets(after.bonds[u])[k] as int,
        ) by {
            assert(is_live(s.keys, after.bonds[u][k].0 as int));
        }
    }
    assert forall|u: int| 0 <= u < n && (#[trigger] after.keys[u]) is None implies !after.active[u]
        && after.weights[u].len() == 0 && after.bonds[u].len() == 0 by {
        assert(s.keys[u] is None);
        let row = after.bonds[u];
        if row.len() > 0 {
            let t = row[0].0 as int;
            assert(row_ok(row, n));
            lemma_entry_unique(row, 0);
            assert(entry(row, t) == g.bond(u, t));
            assert(g.used_row(u).len() == 0);
            lemma_ema_zero(s.hyper.alpha as nat);
        }
    }
    assert forall|u: int| 0 <= u < n implies row_wf(#[trigger] after.weights[u], after.keys) by {
        assert(row_wf(s.weights[u], s.keys));
    }
    lemma_emission_le_budget(g);
    lemma_sum_le(s.payout(stake, budget), g.emission());
}

impl Subnet {
    /// The identifier of the subnetwork.
    pub fn netuid(&self) -> (r: u16)
        ensures
            r == self@.netuid,
    {
        self.netuid
    }

    /// The number of slots, taken or free.
    pub fn slots(&self) -> (r: usize)
        ensures
            r == self@.keys.len(),
    {
        self.keys.len()
    }

    /// The number of slots that hold a neuron.
    pub fn n(&self) -> (r: u16)
        ensures
            r == self@.n,
    {
        self.n
    }

    /// The numbers that steer the epochs.
    pub fn hyper(&self) -> (r: Hyper)
        ensures
            r == self@.hyper,
    {
        self.hyper
    }

    /// The number of blocks between two epochs.
    pub fn tempo(&self) -> (r: u16)
        ensures
            r == self@.tempo,
    {
        self.tempo
    }

    /// The fraction of the global emission that goes to this subnetwork.
    pub fn emission_ratio(&self) -> (r: u16)
        ensures
            r == self@.emission_ratio,
    {
        self.emission_ratio
    }

    /// The block at which the last epoch ran.
    pub fn last_epoch(&self) -> (r: u64)
        ensures
            r == self@.last_epoch,
    {
        self.last_epoch
    }

    /// Sets the number of blocks between two epochs.
    pub fn set_tempo(&mut self, tempo: u16)
        ensures
            final(self)@ == (SubnetView { tempo, ..old(self)@ }),
    {
        self.tempo = tempo;
    }

    /// Sets the fraction of the global emission that goes to this
    /// subnetwork.
    pub fn set_emission_ratio(&mut self, ratio: u16)
        ensures
            final(self)@ == (SubnetView { emission_ratio: ratio, ..old(self)@ }),
    {
        self.emission_ratio = ratio;
    }

    /// Checks a set of weights against the rules of this subnetwork, and
    /// names the first rule that they break.
    pub fn check_weights(&self, uids: &Vec<u16>, values: &Vec<u16>) -> (r: Result<(), Error>)
        ensures
            match verdict(uids@, values@, self@.keys, self@.hyper.min_allowed, self@.hyper.ratio) {
                Some(e) => r == Err::<(), Error>(e),
                None => r is Ok,
            },
    {
        crate::weights::check_weights(
            uids,
            values,
            &self.keys,
            self.hyper.min_allowed,
            self.hyper.ratio,
        )
    }

    /// Runs an epoch at `block`, given the stake behind each slot and the
    /// emission to distribute: replaces the scores and the bonds by those
    /// of the epoch, and returns what the epoch pays to each slot.
    pub fn run_epoch(&mut self, stake: &Vec<u64>, budget: u64, block: u64) -> (paid: Vec<u64>)
        requires
            old(self)@.wf(),
            stake.len() == old(self)@.keys.len(),
        ensures
            old(self)@.epoch_to(stake@, budget, block, final(self)@),
            final(self)@.wf(),
            paid@ == final(self)@.emission,
            sum(nats(paid@)) <= budget,
    {
        proof {
            lemma_graph_wf(self@, stake@, budget);
        }
        let ghost g = self@.graph(stake@, budget);
        let out: Scores = compute(stake, &self.active, &self.weights, &self.bonds, self.hyper, budget);
        let mut paid: Vec<u64> = Vec::new();
        let mut i: usize = 0;
        assert(out.emission.len() == nats(out.emission@).len());
        while i < self.keys.len()
            invariant
                i <= self.keys.len(),
                out.emission.len() == self.keys.len(),
                nats(out.emission@) == g.emission(),
                g == self@.graph(stake@, budget),
                paid.len() == i,
                forall|x: int|
                    0 <= x < i ==> paid@[x] as nat == self@.payout(stake@, budget)[x],
            decreases self.keys.len() - i,
        {
            assert(nats(out.emission@)[i as int] == out.emission@[i as int]);
            paid.push(
                if self.keys[i].is_some() {
                    out.emission[i]
                } else {
                    0
                },
            );
            i = i + 1;
        }
        proof {
            assert(nats(paid@) =~= self@.payout(stake@, budget));
        }
        self.rank = out.rank;
        self.trust = out.trust;
        self.consensus = out.consensus;
        self.incentive = out.incentive;
        self.dividends = out.dividends;
        self.bonds = out.bonds;
        self.emission = paid.clone();
        self.last_epoch = block;
        proof {
            lemma_epoch_wf(old(self)@, stake@, budget, block, self@);
        }
        paid
    }
}

/// The parts of a subnetwork as plain values, as they are kept outside
/// this library. They need not fit together.
pub struct SubnetParts {
    pub netuid: u16,
    pub max_n: u16,
    pub hyper: Hyper,
    pub tempo: u16,
    pub emission_ratio: u16,
    pub last_epoch: u64,
    pub keys: Vec<Option<AccountId>>,
    pub active: Vec<bool>,
    pub last_update: Vec<u64>,
    pub weights: Vec<Vec<(u16, u16)>>,
    pub bonds: Vec<Vec<(u16, u16)>>,
    pub rank: Vec<u16>,
    pub trust: Vec<u16>,
    pub consensus: Vec<u16>,
    pub incentive: Vec<u16>,
    pub dividends: Vec<u16>,
    pub emission: Vec<u64>,
}

impl View for SubnetParts {
    type V = SubnetView;

    /// The subnetwork that the parts describe, with the number of seated
    /// neurons as its slot count.
    open spec fn view(&self) -> SubnetView {
        SubnetView {
            netuid: self.netuid,
            max_n: self.max_n,
            n: occupied(self.keys@) as u16,
            keys: self.keys@,
            active: self.active@,
            last_update: self.last_update@,
            weights: rows_view(self.weights@),
            bonds: rows_view(self.bonds@),
            rank: self.rank@,
            trust: self.trust@,
            consensus: self.consensus@,
            incentive: self.incentive@,
            dividends: self.dividends@,
            emission: self.emission@,
            hyper: self.hyper,
            tempo: self.tempo,
            emission_ratio: self.emission_ratio,
            last_epoch: self.last_epoch,
        }
    }
}

/// Whether every row names registered neurons only, each at most once.
pub open spec fn rows_wf(rows: Seq<Seq<(u16, u16)>>, keys: Seq<Option<AccountId>>) -> bool {
    forall|u: int| 0 <= u < rows.len() ==> row_wf(#[trigger] rows[u], keys)
}

/// Whether every free slot is inactive and has empty rows.
pub open spec fn free_slots_clear(
    keys: Seq<Option<AccountId>>,
    active: Seq<bool>,
    weights: Seq<Seq<(u16, u16)>>,
    bonds: Seq<Seq<(u16, u16)>>,
) -> bool {
    forall|u: int|
        0 <= u < keys.len() && (#[trigger] keys[u]) is None ==> !active[u] && weights[u].len() == 0
            && bonds[u].len() == 0
}

/// Counts the slots that hold a neuron.
pub fn count_occupied(keys: &Vec<Option<AccountId>>) -> (c: usize)
    ensures
        c == occupied(keys@),
{
    let mut c: usize = 0;
    let mut i: usize = 0;
    while i < keys.len()
        invariant
            i <= keys.len(),
            c <= i,
            c == occupied(keys@.take(i as int)),
        decreases keys.len() - i,
    {
        proof {
            crate::fixed::lemma_take_step(keys@, i as int);
        }
        if keys[i].is_some() {
            c = c + 1;
        }
        i = i + 1;
    }
    proof {
        crate::fixed::lemma_take_all(keys@);
    }
    c
}

/// Tells whether no hotkey holds two slots.
pub fn keys_distinct(keys: &Vec<Option<AccountId>>) -> (b: bool)
    ensures
        b == distinct_keys(keys@),
{
    let mut j: usize = 0;
    while j < keys.len()
        invariant
            j <= keys.len(),
            forall|u: int, v: int|
                0 <= u < j && 0 <= v < j && keys@[u] is Some && keys@[u] == keys@[v] ==> u == v,
        decreases keys.len() - j,
    {
        match keys[j] {
            Some(h) => {
                let mut i: usize = 0;
                while i < j
                    invariant
                        i <= j < keys.len(),
                        keys@[j as int] == Some(h),
                        forall|u: int| 0 <= u < i ==> keys@[u] != Some(h),
                    decreases j - i,
                {
                    let same: bool = match keys[i] {
                        Some(k) => k == h,
                        None => false,
                    };
                    if same {
                        return false;
                    }
                    i = i + 1;
                }
            },
            None => {},
        }
        j = j + 1;
    }
    true
}

/// Tells whether every row names registered neurons only, each at most
/// once.
pub fn rows_well_formed(rows: &Vec<Vec<(u16, u16)>>, keys: &Vec<Option<AccountId>>) -> (b: bool)
    ensures
        b == rows_wf(rows_view(rows@), keys@),
{
    let mut u: usize = 0;
    while u < rows.len()
        invariant
            u <= rows.len(),
            forall|x: int| 0 <= x < u ==> row_wf(#[trigger] rows_view(rows@)[x], keys@),
        decreases rows.len() - u,
    {
        let targets: Vec<u16> = targets_of(&rows[u]);
        assert(rows_view(rows@)[u as int] == rows@[u as int]@);
        if has_duplicate(&targets) || !targets_live(&targets, keys) {
            assert(!row_wf(rows_view(rows@)[u as int], keys@));
            return false;
        }
        u = u + 1;
    }
    true
}

/// Tells whether every free slot is inactive and has empty rows.
pub fn free_slots_are_clear(
    keys: &Vec<Option<AccountId>>,
    active: &Vec<bool>,
    weights: &Vec<Vec<(u16, u16)>>,
    bonds: &Vec<Vec<(u16, u16)>>,
) -> (b: bool)
    requires
        active.len() == keys.len(),
        weights.len() == keys.len(),
        bonds.len() == keys.len(),
    ensures
        b == free_slots_clear(keys@, active@, rows_view(weights@), rows_view(bonds@)),
{
    let mut u: usize = 0;
    while u < keys.len()
        invariant
            u <= keys.len(),
            active.len() == keys.len(),
            weights.len() == keys.len(),
            bonds.len() == keys.len(),
            forall|x: int|
                0 <= x < u && (#[trigger] keys@[x]) is None ==> !active@[x] && rows_view(
                    weights@,
                )[x].len() == 0 && rows_view(bonds@)[x].len() == 0,
        decreases keys.len() - u,
    {
        assert(rows_view(weights@)[u as int] == weights@[u as int]@);
        assert(rows_view(bonds@)[u as int] == bonds@[u as int]@);
        if keys[u].is_none() && (active[u] || weights[u].len() != 0 || bonds[u].len() != 0) {
            assert(keys@[u as int] is None);
            return false;
        }
        u = u + 1;
    }
    true
}

impl Subnet {
    /// Puts a subnetwork together from its parts, if they fit together:
    /// the vectors have one entry for each slot, the slots are no more than
    /// the maximum, no hotkey is seated twice, every row names registered
    /// neurons only and each at most once, and every free slot is inactive
    /// and has empty rows.
    pub fn from_parts(parts: SubnetParts) -> (r: Option<Subnet>)
        ensures
            match r {
                Some(s) => s@ == parts@ && s@.wf(),
                None => !parts@.wf(),
            },
    {
        let n: usize = parts.keys.len();
        if n > parts.max_n as usize || parts.active.len() != n || parts.last_update.len() != n
            || parts.weights.len() != n || parts.bonds.len() != n || parts.rank.len() != n
            || parts.trust.len() != n || parts.consensus.len() != n || parts.incentive.len() != n
            || parts.dividends.len() != n || parts.emission.len() != n {
            return None;
        }
        if !keys_distinct(&parts.keys) {
            return None;
        }
        if !rows_well_formed(&parts.weights, &parts.keys) {
            return None;
        }
        if !rows_well_formed(&parts.bonds, &parts.keys) {
            return None;
        }
        if !free_slots_are_clear(&parts.keys, &parts.active, &parts.weights, &parts.bonds) {
            return None;
        }
        let seated: usize = count_occupied(&parts.keys);
        proof {
            lemma_occupied_le(parts.keys@);
        }
        Some(
            Subnet {
                netuid: parts.netuid,
                max_n: parts.max_n,
                n: seated as u16,
                keys: parts.keys,
                active: parts.active,
                last_update: parts.last_update,
                weights: parts.weights,
                bonds: parts.bonds,
                rank: parts.rank,
                trust: parts.trust,
                consensus: parts.consensus,
                incentive: parts.incentive,
                dividends: parts.dividends,
                emission: parts.emission,
                hyper: parts.hyper,
                tempo: parts.tempo,
                emission_ratio: parts.emission_ratio,
                last_epoch: parts.last_epoch,
            },
        )
    }

    /// Takes a subnetwork apart.
    pub fn into_parts(self) -> (parts: SubnetParts)
        requires
            self@.wf(),
        ensures
            parts@ == self@,
    {
        SubnetParts {
            netuid: self.netuid,
            max_n: self.max_n,
            hyper: self.hyper,
            tempo: self.tempo,
            emission_ratio: self.emission_ratio,
            last_epoch: self.last_epoch,
            keys: self.keys,
            active: self.active,
            last_update: self.last_update,
            weights: self.weights,
            bonds: self.bonds,
            rank: self.rank,
            trust: self.trust,
            consensus: self.consensus,
            incentive: self.incentive,
            dividends: self.dividends,
            emission: self.emission,
        }
    }

    /// The largest number of slots that the subnetwork may have.
    pub fn max_n(&self) -> (r: u16)
        ensures
            r == self@.max_n,
    {
        self.max_n
    }

    /// For each slot the hotkey seated there, if any.
    pub fn keys(&self) -> (r: &Vec<Option<AccountId>>)
        ensures
            r@ == self@.keys,
    {
        &self.keys
    }

    /// For each slot whether its neuron takes part in the epoch.
    pub fn active(&self) -> (r: &Vec<bool>)
        ensures
            r@ == self@.active,
    {
        &self.active
    }

    /// For each slot the block at which its neuron last changed.
    pub fn last_update(&self) -> (r: &Vec<u64>)
        ensures
            r@ == self@.last_update,
    {
        &self.last_update
    }

    /// For each slot the weights that its neuron gives to others.
    pub fn weights(&self) -> (r: &Vec<Vec<(u16, u16)>>)
        ensures
            rows_view(r@) == self@.weights,
    {
        &self.weights
    }

    /// For each slot the bonds that its neuron holds in others.
    pub fn bonds(&self) -> (r: &Vec<Vec<(u16, u16)>>)
        ensures
            rows_view(r@) == self@.bonds,
    {
        &self.bonds
    }

    /// The rank of each slot.
    pub fn rank(&self) -> (r: &Vec<u16>)
        ensures
            r@ == self@.rank,
    {
        &self.rank
    }

    /// The trust of each slot.
    pub fn trust(&self) -> (r: &Vec<u16>)
        ensures
            r@ == self@.trust,
    {
        &self.trust
    }

    /// The consensus of each slot.
    pub fn consensus(&self) -> (r: &Vec<u16>)
        ensures
            r@ == self@.consensus,
    {
        &self.consensus
    }

    /// The incentive of each slot.
    pub fn incentive(&self) -> (r: &Vec<u16>)
        ensures
            r@ == self@.incentive,
    {
        &self.incentive
    }

    /// The dividends of each slot.
    pub fn dividends(&self) -> (r: &Vec<u16>)
        ensures
            r@ == self@.dividends,
    {
        &self.dividends
    }

    /// What the last epoch paid to each slot.
    pub fn emission(&self) -> (r: &Vec<u64>)
        ensures
            r@ == self@.emission,
    {
        &self.emission
    }
}

} // verus!
