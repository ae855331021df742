//! The epoch: from the stake behind each neuron and the weights that the
//! neurons give one another to rank, trust, consensus, incentive, bonds,
//! dividends and emission.
//!
//! All of it is computed on plain vectors with one entry for each slot of a
//! subnetwork. Fractions are numerators over `ONE`; products of two of them
//! are numerators over `ONE * ONE` until they are divided.

use vstd::prelude::*;
use crate::fixed::lemma_normalized_sum;
use crate::fixed::lemma_sum_bound;
use crate::fixed::lemma_sum_take_step;
use crate::fixed::lemma_sum_zeros;
use crate::fixed::lemma_take_all;
use crate::fixed::lemma_take_step;
use crate::fixed::nats;
use crate::fixed::nats16;
use crate::fixed::normalize;
use crate::fixed::normalized;
use crate::fixed::sum;
use crate::fixed::total;
use crate::fixed::zeros;
use crate::fixed::MAX_LEN;
use crate::fixed::ONE;
use crate::weights::effective;
use crate::weights::has_duplicate;
use crate::weights::has_duplicates;
use crate::weights::targets_of;
use crate::weights::row_targets;
use crate::weights::row_values;
use crate::weights::rows_view;

verus! {

/// One half, as a fraction.
pub const HALF: u16 = 32767;

/// The numbers that steer an epoch.
#[derive(Clone, Copy, Debug, PartialEq, Eq, Structural)]
pub struct Hyper {
    /// The least number of non-zero weights that a row must have to count.
    pub min_allowed: u16,
    /// The largest multiple of its smallest non-zero weight that a weight
    /// of a row may be; larger weights are lowered to that multiple.
    pub ratio: u16,
    /// The trust, as a fraction, at which half of a neuron's rank becomes
    /// consensus.
    pub kappa: u16,
    /// How steeply the part of rank that becomes consensus rises with trust.
    pub rho: u16,
    /// The fraction of a bond that comes from the current weight; the rest
    /// is kept from the bond before.
    pub alpha: u16,
    /// The fraction of the emission that is paid for incentive; the rest is
    /// paid for dividends.
    pub split: u16,
}

/// The weight that a row gives to `j`: the sum of its entries for `j`.
pub open spec fn entry(row: Seq<(u16, u16)>, j: int) -> nat
    decreases row.len(),
{
    if row.len() == 0 {
        0
    } else {
        entry(row.drop_last(), j) + if row.last().0 == j {
            row.last().1 as nat
        } else {
            0nat
        }
    }
}

/// Whether a row has distinct targets, all of them below `n`.
pub open spec fn row_ok(row: Seq<(u16, u16)>, n: nat) -> bool {
    &&& !has_duplicates(row_targets(row))
    &&& forall|k: int| 0 <= k < row.len() ==> (#[trigger] row[k]).0 < n
}

/// Whether every row has distinct targets, all of them below the number of
/// rows.
pub open spec fn rows_ok(rows: Seq<Seq<(u16, u16)>>) -> bool {
    forall|i: int| 0 <= i < rows.len() ==> row_ok(#[trigger] rows[i], rows.len())
}

/// What flows to `j` from the first `upto` rows: the sum over those rows of
/// the row's share `s[i]` times the weight that the row gives to `j`.
pub open spec fn flow(s: Seq<nat>, rows: Seq<Seq<(u16, u16)>>, upto: nat, j: int) -> nat
    decreases upto,
{
    if upto == 0 {
        0
    } else {
        flow(s, rows, (upto - 1) as nat, j) + s[upto - 1] * entry(rows[upto - 1], j)
    }
}

/// The row with each non-zero weight replaced by 1.
pub open spec fn support(row: Seq<(u16, u16)>) -> Seq<(u16, u16)> {
    row.map_values(
        |e: (u16, u16)|
            (
                e.0,
                if e.1 > 0 {
                    1u16
                } else {
                    0u16
                },
            ),
    )
}

/// Every row with each non-zero weight replaced by 1.
pub open spec fn supports(rows: Seq<Seq<(u16, u16)>>) -> Seq<Seq<(u16, u16)>> {
    rows.map_values(|row: Seq<(u16, u16)>| support(row))
}

/// The part of a neuron's rank that becomes consensus, as a fraction, for a
/// trust of `t`: one half at `kappa`, rising and falling from there by `rho`
/// for each unit of trust, and held between zero and one.
pub open spec fn gate(t: nat, kappa: nat, rho: nat) -> nat {
    if t >= kappa {
        if HALF + rho * (t - kappa) >= ONE {
            ONE as nat
        } else {
            (HALF + rho * (t - kappa)) as nat
        }
    } else {
        if rho * (kappa - t) >= HALF {
            0
        } else {
            (HALF - rho * (kappa - t)) as nat
        }
    }
}

/// The moving average of a bond: `alpha` parts of the current weight and
/// the rest of the bond before.
pub open spec fn ema(prev: nat, cur: nat, alpha: nat) -> nat {
    ((alpha * cur + (ONE - alpha) * prev) / (ONE as int)) as nat
}

/// The sum over the first `upto` targets of the weight that `row` gives to
/// the target times the target's entry in `x`.
pub open spec fn dot(row: Seq<(u16, u16)>, x: Seq<nat>, upto: nat) -> nat
    decreases upto,
{
    if upto == 0 {
        0
    } else {
        dot(row, x, (upto - 1) as nat) + entry(row, upto - 1) * x[upto - 1]
    }
}

/// What an epoch starts from, as plain mathematical values.
pub struct Graph {
    /// The stake behind each slot.
    pub stake: Seq<u64>,
    /// For each slot whether it takes part.
    pub active: Seq<bool>,
    /// The stored weights of each slot.
    pub weights: Seq<Seq<(u16, u16)>>,
    /// The bonds that each slot holds from the epochs before.
    pub bonds: Seq<Seq<(u16, u16)>>,
    pub hyper: Hyper,
    /// The emission to distribute.
    pub budget: u64,
}

impl Graph {
    /// The number of slots.
    pub open spec fn n(self) -> nat {
        self.stake.len()
    }

    /// Whether the vectors are aligned, not longer than uids can index, and
    /// the rows have distinct targets within the slots.
    pub open spec fn wf(self) -> bool {
        &&& self.n() <= MAX_LEN
        &&& self.active.len() == self.n()
        &&& self.weights.len() == self.n()
        &&& self.bonds.len() == self.n()
        &&& rows_ok(self.weights)
        &&& rows_ok(self.bonds)
    }

    /// The stake of each slot that takes part; zero for the others.
    pub open spec fn live_stake(self) -> Seq<nat> {
        Seq::new(
            self.n(),
            |i: int|
                if self.active[i] {
                    self.stake[i] as nat
                } else {
                    0nat
                },
        )
    }

    /// Whether any stake takes part.
    pub open spec fn staked(self) -> bool {
        sum(self.live_stake()) > 0
    }

    /// The stake of each slot as a fraction of all stake that takes part.
    pub open spec fn shares(self) -> Seq<nat> {
        normalized(self.live_stake())
    }

    /// The weights that count for slot `i`, in the order of its stored row:
    /// clipped and normalized where the slot takes part, some stake takes
    /// part and the row has enough non-zero weights; else all zero.
    pub open spec fn used_values(self, i: int) -> Seq<nat> {
        if self.staked() && self.active[i] {
            effective(
                nats16(row_values(self.weights[i])),
                self.hyper.min_allowed as nat,
                self.hyper.ratio as nat,
            )
        } else {
            zeros(self.weights[i].len())
        }
    }

    /// The row of slot `i` with the weights that count.
    pub open spec fn used_row(self, i: int) -> Seq<(u16, u16)> {
        Seq::new(
            self.weights[i].len(),
            |k: int| (self.weights[i][k].0, self.used_values(i)[k] as u16),
        )
    }

    /// The weights that count, row by row.
    pub open spec fn used(self) -> Seq<Seq<(u16, u16)>> {
        Seq::new(self.n(), |i: int| self.used_row(i))
    }

    /// The endorsement that flows to `j`, weighted by stake, as a numerator
    /// over `ONE * ONE`.
    pub open spec fn rank_num(self, j: int) -> nat {
        flow(self.shares(), self.used(), self.n(), j)
    }

    /// The stake, as a fraction, of the slots that give `j` a non-zero
    /// weight.
    pub open spec fn backing(self, j: int) -> nat {
        flow(self.shares(), supports(self.used()), self.n(), j)
    }

    /// Rank: for each slot the endorsement that flows to it.
    pub open spec fn rank(self) -> Seq<nat> {
        Seq::new(self.n(), |j: int| self.rank_num(j) / (ONE as nat))
    }

    /// Trust: for each slot its rank over the stake of those that endorse
    /// it; zero where nobody does.
    pub open spec fn trust(self) -> Seq<nat> {
        Seq::new(
            self.n(),
            |j: int|
                if self.backing(j) == 0 {
                    0nat
                } else {
                    self.rank_num(j) / self.backing(j)
                },
        )
    }

    /// Consensus: for each slot the part of its rank that its trust lets
    /// through.
    pub open spec fn consensus(self) -> Seq<nat> {
        Seq::new(
            self.n(),
            |j: int|
                self.rank()[j] * gate(
                    self.trust()[j],
                    self.hyper.kappa as nat,
                    self.hyper.rho as nat,
                ) / (ONE as nat),
        )
    }

    /// Incentive: consensus normalized to a sum of one.
    pub open spec fn incentive(self) -> Seq<nat> {
        normalized(self.consensus())
    }

    /// The bond that slot `i` holds in `j` after the epoch.
    pub open spec fn bond(self, i: int, j: int) -> nat {
        ema(entry(self.bonds[i], j), entry(self.used_row(i), j), self.hyper.alpha as nat)
    }

    /// Whether `rows` are the bonds after the epoch: row by row they give
    /// each slot the bond that it is due, through distinct targets and
    /// without entries of zero.
    pub open spec fn bonds_are(self, rows: Seq<Seq<(u16, u16)>>) -> bool {
        &&& rows.len() == self.n()
        &&& rows_ok(rows)
        &&& forall|i: int, j: int|
            0 <= i < self.n() && 0 <= j < self.n() ==> #[trigger] entry(rows[i], j) == self.bond(
                i,
                j,
            )
        &&& forall|i: int, k: int|
            0 <= i < self.n() && 0 <= k < rows[i].len() ==> (#[trigger] rows[i][k]).1 > 0
    }

    /// What the bonds of slot `i` earn: the sum over all slots of its bond
    /// in the slot times the slot's incentive.
    pub open spec fn earned(self, i: int) -> nat {
        earning(self, i, self.n())
    }

    /// Dividends: what each slot's bonds earn, normalized to a sum of one.
    pub open spec fn dividends(self) -> Seq<nat> {
        normalized(Seq::new(self.n(), |i: int| self.earned(i)))
    }

    /// The part of the budget that is paid for incentive.
    pub open spec fn incentive_pool(self) -> nat {
        self.budget as nat * self.hyper.split as nat / (ONE as nat)
    }

    /// The part of the budget that is paid for dividends.
    pub open spec fn dividend_pool(self) -> nat {
        (self.budget - self.incentive_pool()) as nat
    }

    /// Emission: for each slot its part of the two pools, by its incentive
    /// and by its dividends.
    pub open spec fn emission(self) -> Seq<nat> {
        Seq::new(
            self.n(),
            |i: int|
                self.incentive_pool() * self.incentive()[i] / (ONE as nat) + self.dividend_pool()
                    * self.dividends()[i] / (ONE as nat),
        )
    }
}

/// The sum over the first `upto` slots `j` of the bond of `i` in `j` after
/// the epoch times the incentive of `j`.
pub open spec fn earning(g: Graph, i: int, upto: nat) -> nat
    decreases upto,
{
    if upto == 0 {
        0
    } else {
        earning(g, i, (upto - 1) as nat) + g.bond(i, upto - 1) * g.incentive()[upto - 1]
    }
}

/// A row gives nothing to a target that it does not name.
pub proof fn lemma_entry_absent(row: Seq<(u16, u16)>, j: int)
    requires
        forall|k: int| 0 <= k < row.len() ==> (#[trigger] row[k]).0 != j,
    ensures
        entry(row, j) == 0,
    decreases row.len(),
{
    if row.len() > 0 {
        assert(row[row.len() - 1].0 != j);
        assert forall|k: int| 0 <= k < row.drop_last().len() implies (#[trigger] row.drop_last()[k]).0
            != j by {
            assert(row[k].0 != j);
        }
        lemma_entry_absent(row.drop_last(), j);
    }
}

/// A prefix of a row with distinct targets has distinct targets.
pub proof fn lemma_prefix_distinct(row: Seq<(u16, u16)>, k: int)
    requires
        !has_duplicates(row_targets(row)),
        0 <= k <= row.len(),
    ensures
        !has_duplicates(row_targets(row.take(k))),
{
    let p = row.take(k);
    if has_duplicates(row_targets(p)) {
        let (a, b) = choose|a: int, b: int|
            0 <= a < b < row_targets(p).len() && row_targets(p)[a] == row_targets(p)[b];
        assert(row_targets(row)[a] == row_targets(row)[b]);
    }
}

/// In a row with distinct targets, the weight given to a target is the
/// weight of the one entry that names it.
pub proof fn lemma_entry_unique(row: Seq<(u16, u16)>, k: int)
    requires
        !has_duplicates(row_targets(row)),
        0 <= k < row.len(),
    ensures
        entry(row, row[k].0 as int) == row[k].1,
    decreases row.len(),
{
    let j = row[k].0 as int;
    let p = row.drop_last();
    assert(p =~= row.take(row.len() - 1));
    lemma_prefix_distinct(row, row.len() - 1);
    if k == row.len() - 1 {
        assert forall|x: int| 0 <= x < p.len() implies (#[trigger] p[x]).0 != j by {
            assert(row_targets(row)[x] != row_targets(row)[k]);
        }
        lemma_entry_absent(p, j);
    } else {
        assert(row_targets(row)[k] != row_targets(row)[row.len() - 1]);
        lemma_entry_unique(p, k);
    }
}

/// In a row with distinct targets, the weight given to a target is that of
/// one entry, so it fits in sixteen bits.
pub proof fn lemma_entry_le(row: Seq<(u16, u16)>, j: int)
    requires
        !has_duplicates(row_targets(row)),
    ensures
        entry(row, j) <= 0xffff,
{
    if exists|k: int| 0 <= k < row.len() && (#[trigger] row[k]).0 == j {
        let k = choose|k: int| 0 <= k < row.len() && (#[trigger] row[k]).0 == j;
        lemma_entry_unique(row, k);
    } else {
        lemma_entry_absent(row, j);
    }
}

/// What a row gives to a target grows by the next entry where that entry
/// names the target.
pub proof fn lemma_entry_step(row: Seq<(u16, u16)>, k: int, j: int)
    requires
        0 <= k < row.len(),
    ensures
        entry(row.take(k + 1), j) == entry(row.take(k), j) + if row[k].0 == j {
            row[k].1 as nat
        } else {
            0nat
        },
{
    lemma_take_step(row, k);
}

/// Where no row gives a target more than `b`, no more than `b` times the
/// shares of the rows flows to the target.
pub proof fn lemma_flow_le(s: Seq<nat>, rows: Seq<Seq<(u16, u16)>>, upto: nat, j: int, b: nat)
    requires
        upto <= s.len(),
        upto <= rows.len(),
        forall|i: int| 0 <= i < upto ==> entry(#[trigger] rows[i], j) <= b,
    ensures
        flow(s, rows, upto, j) <= b * sum(s.take(upto as int)),
    decreases upto,
{
    if upto > 0 {
        let i = upto - 1;
        lemma_flow_le(s, rows, i as nat, j, b);
        lemma_sum_take_step(s, i);
        let e = entry(rows[i], j);
        let f = flow(s, rows, i as nat, j);
        let t = sum(s.take(i));
        let x = s[i];
        assert(f + x * e <= b * (t + x)) by (nonlinear_arith)
            requires
                f <= b * t,
                e <= b,
                0 <= x,
                0 <= e,
        ;
    } else {
        assert(s.take(0).len() == 0);
    }
}

/// Where each row gives a target at most `c` times what the same row of
/// another matrix gives it, at most `c` times as much flows to the target.
pub proof fn lemma_flow_dominated(
    s: Seq<nat>,
    a: Seq<Seq<(u16, u16)>>,
    b: Seq<Seq<(u16, u16)>>,
    upto: nat,
    j: int,
    c: nat,
)
    requires
        upto <= a.len(),
        upto <= b.len(),
        forall|i: int| 0 <= i < upto ==> entry(#[trigger] a[i], j) <= c * entry(b[i], j),
    ensures
        flow(s, a, upto, j) <= c * flow(s, b, upto, j),
    decreases upto,
{
    if upto > 0 {
        let i = upto - 1;
        lemma_flow_dominated(s, a, b, i as nat, j, c);
        let ea = entry(a[i], j);
        let eb = entry(b[i], j);
        let fa = flow(s, a, i as nat, j);
        let fb = flow(s, b, i as nat, j);
        let x = s[i];
        assert(fa + x * ea <= c * (fb + x * eb)) by (nonlinear_arith)
            requires
                fa <= c * fb,
                ea <= c * eb,
                0 <= x,
        ;
    } else {
        assert(c * 0 == 0) by (nonlinear_arith);
    }
}

/// Where every share is zero, nothing flows.
pub proof fn lemma_flow_zero(s: Seq<nat>, rows: Seq<Seq<(u16, u16)>>, upto: nat, j: int)
    requires
        upto <= s.len(),
        forall|i: int| 0 <= i < upto ==> s[i] == 0,
    ensures
        flow(s, rows, upto, j) == 0,
    decreases upto,
{
    if upto > 0 {
        lemma_flow_zero(s, rows, (upto - 1) as nat, j);
        let e = entry(rows[upto - 1], j);
        assert(0 * e == 0) by (nonlinear_arith);
    }
}

/// For each target what flows to it from all rows: the sum over the rows
/// of the row's share times the weight that the row gives to the target.
pub fn scatter(s: &Vec<u16>, rows: &Vec<Vec<(u16, u16)>>) -> (r: Vec<u64>)
    requires
        s.len() == rows.len(),
        rows.len() <= MAX_LEN,
        rows_ok(rows_view(rows@)),
    ensures
        r.len() == rows.len(),
        forall|j: int|
            0 <= j < r.len() ==> r@[j] == flow(
                nats16(s@),
                rows_view(rows@),
                rows.len() as nat,
                j,
            ),
{
    let n: usize = rows.len();
    let ghost shares = nats16(s@);
    let ghost matrix = rows_view(rows@);
    let mut r: Vec<u64> = vec![0u64; n];
    let mut i: usize = 0;
    while i < n
        invariant
            i <= n,
            n == rows.len(),
            n == s.len(),
            n <= MAX_LEN,
            r.len() == n,
            shares == nats16(s@),
            matrix == rows_view(rows@),
            rows_ok(matrix),
            forall|j: int| 0 <= j < n ==> r@[j] == flow(shares, matrix, i as nat, j),
        decreases n - i,
    {
        let row: &Vec<(u16, u16)> = &rows[i];
        let si: u64 = s[i] as u64;
        assert(matrix[i as int] == row@);
        assert(row_ok(matrix[i as int], n as nat));
        assert forall|j: int| 0 <= j < n implies r@[j] == flow(shares, matrix, i as nat, j) + si
            * entry(row@.take(0), j) by {
            assert(row@.take(0).len() == 0);
            let e = entry(row@.take(0), j);
            assert(e == 0);
            assert(si * e == 0) by (nonlinear_arith)
                requires
                    e == 0,
            ;
        }
        let mut k: usize = 0;
        while k < row.len()
            invariant
                k <= row.len(),
                i < n,
                n == rows.len(),
                n == s.len(),
                n <= MAX_LEN,
                r.len() == n,
                si == s@[i as int],
                shares == nats16(s@),
                matrix == rows_view(rows@),
                rows_ok(matrix),
                matrix[i as int] == row@,
                row_ok(row@, n as nat),
                forall|j: int|
                    0 <= j < n ==> r@[j] == flow(shares, matrix, i as nat, j) + si * entry(
                        row@.take(k as int),
                        j,
                    ),
            decreases row.len() - k,
        {
            let e: (u16, u16) = row[k];
            let t: usize = e.0 as usize;
            let w: u64 = e.1 as u64;
            assert(row@[k as int].0 < n);
            proof {
                let before = entry(row@.take(k as int), t as int);
                let after = entry(row@.take(k + 1), t as int);
                lemma_entry_step(row@, k as int, t as int);
                lemma_prefix_distinct(row@, k + 1);
                lemma_entry_le(row@.take(k + 1), t as int);
                assert forall|x: int| 0 <= x < i implies entry(#[trigger] matrix[x], t as int)
                    <= 0xffff by {
                    assert(row_ok(matrix[x], n as nat));
                    lemma_entry_le(matrix[x], t as int);
                }
                lemma_flow_le(shares, matrix, i as nat, t as int, 0xffff);
                assert forall|x: int| 0 <= x < shares.take(i as int).len() implies shares.take(
                    i as int,
                )[x] <= 0xffff by {}
                lemma_sum_bound(shares.take(i as int), 0xffff);
                let total_shares = sum(shares.take(i as int));
                assert(0xffff * total_shares <= 0xffff * 0xffff * 0x10000) by (nonlinear_arith)
                    requires
                        total_shares <= i * 0xffff,
                        i <= 0x10000,
                ;
                assert(si * after <= 0xffff * 0xffff) by (nonlinear_arith)
                    requires
                        si <= 0xffff,
                        after <= 0xffff,
                ;
                assert(si * after == si * before + si * w) by (nonlinear_arith)
                    requires
                        after == before + w,
                ;
                assert(si * w <= 0xffff * 0xffff) by (nonlinear_arith)
                    requires
                        si <= 0xffff,
                        w <= 0xffff,
                ;
            }
            let cur: u64 = r[t];
            r[t] = cur + si * w;
            proof {
                assert forall|j: int| 0 <= j < n implies r@[j] == flow(
                    shares,
                    matrix,
                    i as nat,
                    j,
                ) + si * entry(row@.take(k + 1), j) by {
                    lemma_entry_step(row@, k as int, j);
                    if j == t {
                        let before = entry(row@.take(k as int), j);
                        let after = entry(row@.take(k + 1), j);
                        assert(si * after == si * before + si * w) by (nonlinear_arith)
                            requires
                                after == before + w,
                        ;
                    }
                }
            }
            k = k + 1;
        }
        proof {
            lemma_take_all(row@);
        }
        i = i + 1;
    }
    r
}

/// The rows of weights that count have the targets of the stored rows, so
/// they and their supports have distinct targets within the slots.
pub proof fn lemma_used_ok(g: Graph)
    requires
        g.wf(),
    ensures
        g.used().len() == g.n(),
        supports(g.used()).len() == g.n(),
        rows_ok(g.used()),
        rows_ok(supports(g.used())),
{
    assert forall|i: int| 0 <= i < g.n() implies row_ok(#[trigger] g.used()[i], g.n()) by {
        assert(row_ok(g.weights[i], g.n()));
        assert(row_targets(g.used_row(i)) =~= row_targets(g.weights[i]));
        assert forall|k: int| 0 <= k < g.used_row(i).len() implies (#[trigger] g.used_row(
            i,
        )[k]).0 < g.n() by {
            assert(g.weights[i][k].0 < g.n());
        }
    }
    assert forall|i: int| 0 <= i < g.n() implies row_ok(
        #[trigger] supports(g.used())[i],
        g.n(),
    ) by {
        assert(row_ok(g.used()[i], g.n()));
        assert(row_targets(support(g.used()[i])) =~= row_targets(g.used()[i]));
        assert forall|k: int| 0 <= k < support(g.used()[i]).len() implies (#[trigger] support(
            g.used()[i],
        )[k]).0 < g.n() by {
            assert(g.used()[i][k].0 < g.n());
        }
    }
}

/// A row gives a target at most `ONE` times what its support gives it, and
/// the support gives it at most 1.
pub proof fn lemma_support_entry(row: Seq<(u16, u16)>, j: int)
    requires
        !has_duplicates(row_targets(row)),
    ensures
        entry(support(row), j) <= 1,
        entry(row, j) <= ONE * entry(support(row), j),
        entry(support(row), j) == 0 <==> entry(row, j) == 0,
{
    let sp = support(row);
    assert(row_targets(sp) =~= row_targets(row));
    if exists|k: int| 0 <= k < row.len() && (#[trigger] row[k]).0 == j {
        let k = choose|k: int| 0 <= k < row.len() && (#[trigger] row[k]).0 == j;
        lemma_entry_unique(row, k);
        lemma_entry_unique(sp, k);
    } else {
        lemma_entry_absent(row, j);
        assert forall|k: int| 0 <= k < sp.len() implies (#[trigger] sp[k]).0 != j by {
            assert(row[k].0 != j);
        }
        lemma_entry_absent(sp, j);
    }
}

/// The stake that backs a slot is at most all stake, and the endorsement
/// that flows to the slot is at most that stake.
pub proof fn lemma_rank_bounds(g: Graph, j: int)
    requires
        g.wf(),
    ensures
        g.backing(j) <= ONE,
        g.rank_num(j) <= ONE * g.backing(j),
{
    lemma_used_ok(g);
    let s = g.shares();
    let w = g.used();
    let sp = supports(w);
    assert forall|i: int| 0 <= i < g.n() implies entry(#[trigger] sp[i], j) <= 1 by {
        assert(row_ok(w[i], g.n()));
        lemma_support_entry(w[i], j);
    }
    assert forall|i: int| 0 <= i < g.n() implies entry(#[trigger] w[i], j) <= ONE * entry(
        sp[i],
        j,
    ) by {
        assert(row_ok(w[i], g.n()));
        lemma_support_entry(w[i], j);
    }
    lemma_flow_le(s, sp, g.n(), j, 1);
    lemma_flow_dominated(s, w, sp, g.n(), j, ONE as nat);
    assert(s.take(g.n() as int) =~= s);
    lemma_normalized_sum(g.live_stake());
}

/// Computes the part of rank that becomes consensus for a trust of `t`.
pub fn gate_of(t: u16, kappa: u16, rho: u16) -> (r: u16)
    ensures
        r == gate(t as nat, kappa as nat, rho as nat),
{
    if t >= kappa {
        let d: u64 = (t - kappa) as u64;
        assert(rho * d <= 0xffff * 0xffff) by (nonlinear_arith)
            requires
                rho <= 0xffff,
                d <= 0xffff,
        ;
        let up: u64 = HALF as u64 + rho as u64 * d;
        if up >= ONE as u64 {
            ONE
        } else {
            up as u16
        }
    } else {
        let d: u64 = (kappa - t) as u64;
        assert(rho * d <= 0xffff * 0xffff) by (nonlinear_arith)
            requires
                rho <= 0xffff,
                d <= 0xffff,
        ;
        let down: u64 = rho as u64 * d;
        if down >= HALF as u64 {
            0
        } else {
            (HALF as u64 - down) as u16
        }
    }
}

/// Takes the stake of the slots that take part, and zero for the others.
fn live_stakes(stake: &Vec<u64>, active: &Vec<bool>, Ghost(g): Ghost<Graph>) -> (r: Vec<u64>)
    requires
        g.stake == stake@,
        g.active == active@,
        stake.len() == active.len(),
    ensures
        r.len() == stake.len(),
        nats(r@) == g.live_stake(),
{
    let mut r: Vec<u64> = Vec::new();
    let mut i: usize = 0;
    while i < stake.len()
        invariant
            i <= stake.len(),
            stake.len() == active.len(),
            r.len() == i,
            forall|x: int|
                0 <= x < i ==> r@[x] == if active@[x] {
                    stake@[x]
                } else {
                    0u64
                },
        decreases stake.len() - i,
    {
        r.push(
            if active[i] {
                stake[i]
            } else {
                0
            },
        );
        i = i + 1;
    }
    proof {
        assert(nats(r@) =~= g.live_stake());
    }
    r
}

/// Builds the rows of weights that count.
fn used_rows(
    weights: &Vec<Vec<(u16, u16)>>,
    active: &Vec<bool>,
    staked: bool,
    hyper: Hyper,
    Ghost(g): Ghost<Graph>,
) -> (r: Vec<Vec<(u16, u16)>>)
    requires
        g.wf(),
        g.weights == rows_view(weights@),
        g.active == active@,
        g.hyper == hyper,
        staked == g.staked(),
    ensures
        rows_view(r@) == g.used(),
        r.len() == g.n(),
{
    let mut r: Vec<Vec<(u16, u16)>> = Vec::new();
    let mut i: usize = 0;
    while i < weights.len()
        invariant
            i <= weights.len(),
            weights.len() == active.len(),
            g.wf(),
            g.weights == rows_view(weights@),
            g.active == active@,
            g.hyper == hyper,
            staked == g.staked(),
            r.len() == i,
            forall|x: int| 0 <= x < i ==> (#[trigger] r@[x])@ == g.used_row(x),
        decreases weights.len() - i,
    {
        let row: &Vec<(u16, u16)> = &weights[i];
        assert(g.weights[i as int] == row@);
        let targets: Vec<u16> = crate::weights::targets_of(row);
        let values: Vec<u16> = crate::weights::values_of(row);
        let counted: Vec<u16> = if staked && active[i] {
            crate::weights::effective_values(&values, hyper.min_allowed, hyper.ratio)
        } else {
            let z: Vec<u16> = vec![0u16; row.len()];
            proof {
                assert(nats16(z@) =~= zeros(row@.len()));
            }
            z
        };
        assert(nats16(counted@) == g.used_values(i as int));
        let built: Vec<(u16, u16)> = crate::weights::zip(&targets, &counted);
        proof {
            assert forall|k: int| 0 <= k < row.len() implies built@[k] == g.used_row(i as int)[k] by {
                assert(nats16(counted@)[k] == counted@[k] as nat);
            }
            assert(built@ =~= g.used_row(i as int));
        }
        r.push(built);
        i = i + 1;
    }
    proof {
        assert(rows_view(r@) =~= g.used());
    }
    r
}

/// Replaces each non-zero weight of every row by 1.
fn support_rows(rows: &Vec<Vec<(u16, u16)>>) -> (r: Vec<Vec<(u16, u16)>>)
    ensures
        r.len() == rows.len(),
        rows_view(r@) == supports(rows_view(rows@)),
{
    let mut r: Vec<Vec<(u16, u16)>> = Vec::new();
    let mut i: usize = 0;
    while i < rows.len()
        invariant
            i <= rows.len(),
            r.len() == i,
            forall|x: int| 0 <= x < i ==> (#[trigger] r@[x])@ == support(rows@[x]@),
        decreases rows.len() - i,
    {
        let row: &Vec<(u16, u16)> = &rows[i];
        let mut out: Vec<(u16, u16)> = Vec::new();
        let mut k: usize = 0;
        while k < row.len()
            invariant
                k <= row.len(),
                out.len() == k,
                forall|x: int| 0 <= x < k ==> out@[x] == support(row@)[x],
            decreases row.len() - k,
        {
            let e: (u16, u16) = row[k];
            out.push(
                (
                    e.0,
                    if e.1 > 0 {
                        1
                    } else {
                        0
                    },
                ),
            );
            k = k + 1;
        }
        proof {
            assert(out@ =~= support(row@));
        }
        r.push(out);
        i = i + 1;
    }
    proof {
        assert(rows_view(r@) =~= supports(rows_view(rows@)));
    }
    r
}

/// Computes rank, trust and consensus from what flows to each slot and the
/// stake that backs it.
fn grade(num: &Vec<u64>, back: &Vec<u64>, hyper: Hyper, Ghost(g): Ghost<Graph>) -> (r: (
    Vec<u16>,
    Vec<u16>,
    Vec<u16>,
))
    requires
        g.wf(),
        g.hyper == hyper,
        num.len() == g.n(),
        back.len() == g.n(),
        forall|j: int| 0 <= j < g.n() ==> num@[j] == g.rank_num(j),
        forall|j: int| 0 <= j < g.n() ==> back@[j] == g.backing(j),
    ensures
        nats16(r.0@) == g.rank(),
        nats16(r.1@) == g.trust(),
        nats16(r.2@) == g.consensus(),
        r.2.len() == g.n(),
{
    let mut rank: Vec<u16> = Vec::new();
    let mut trust: Vec<u16> = Vec::new();
    let mut consensus: Vec<u16> = Vec::new();
    let mut j: usize = 0;
    while j < num.len()
        invariant
            j <= num.len(),
            g.wf(),
            g.hyper == hyper,
            num.len() == g.n(),
            back.len() == g.n(),
            forall|x: int| 0 <= x < g.n() ==> num@[x] == g.rank_num(x),
            forall|x: int| 0 <= x < g.n() ==> back@[x] == g.backing(x),
            rank.len() == j,
            trust.len() == j,
            consensus.len() == j,
            forall|x: int| 0 <= x < j ==> rank@[x] as nat == g.rank()[x],
            forall|x: int| 0 <= x < j ==> trust@[x] as nat == g.trust()[x],
            forall|x: int| 0 <= x < j ==> consensus@[x] as nat == g.consensus()[x],
        decreases num.len() - j,
    {
        let a: u64 = num[j];
        let b: u64 = back[j];
        proof {
            lemma_rank_bounds(g, j as int);
            assert(a / 65535 <= 65535) by (nonlinear_arith)
                requires
                    a <= 65535 * b,
                    b <= 65535,
            ;
            if b > 0 {
                assert(a / b <= 65535) by (nonlinear_arith)
                    requires
                        a <= 65535 * b,
                        b > 0,
                ;
            }
        }
        let rk: u16 = (a / (ONE as u64)) as u16;
        let tr: u16 = if b == 0 {
            0
        } else {
            (a / b) as u16
        };
        let gt: u16 = gate_of(tr, hyper.kappa, hyper.rho);
        assert(rk * gt / 65535 <= 65535 && rk * gt <= 65535 * 65535) by (nonlinear_arith)
            requires
                rk <= 65535,
                gt <= 65535,
        ;
        let cs: u16 = ((rk as u64 * gt as u64) / (ONE as u64)) as u16;
        rank.push(rk);
        trust.push(tr);
        consensus.push(cs);
        j = j + 1;
    }
    proof {
        assert(nats16(rank@) =~= g.rank());
        assert(nats16(trust@) =~= g.trust());
        assert(nats16(consensus@) =~= g.consensus());
    }
    (rank, trust, consensus)
}

/// Whether a row has an entry for `j`.
pub open spec fn names(row: Seq<(u16, u16)>, j: int) -> bool {
    exists|k: int| 0 <= k < row.len() && (#[trigger] row[k]).0 == j
}

/// A prefix that is one entry longer names what the shorter one names, and
/// the target of the entry.
pub proof fn lemma_names_step(row: Seq<(u16, u16)>, k: int, j: int)
    requires
        0 <= k < row.len(),
    ensures
        names(row.take(k + 1), j) == (names(row.take(k), j) || row[k].0 == j),
{
    let long = row.take(k + 1);
    let short = row.take(k);
    if names(long, j) {
        let x = choose|x: int| 0 <= x < long.len() && (#[trigger] long[x]).0 == j;
        if x < k {
            assert(short[x].0 == j);
        }
    }
    if names(short, j) {
        let x = choose|x: int| 0 <= x < short.len() && (#[trigger] short[x]).0 == j;
        assert(long[x].0 == j);
    }
    if row[k].0 == j {
        assert(long[k].0 == j);
    }
}

/// In a row with distinct targets, no entry names the target of a later one.
pub proof fn lemma_not_named_before(row: Seq<(u16, u16)>, k: int)
    requires
        !has_duplicates(row_targets(row)),
        0 <= k < row.len(),
    ensures
        !names(row.take(k), row[k].0 as int),
{
    let short = row.take(k);
    if names(short, row[k].0 as int) {
        let x = choose|x: int| 0 <= x < short.len() && (#[trigger] short[x]).0 == row[k].0;
        assert(row_targets(row)[x] == row_targets(row)[k]);
    }
}

/// A row with one more entry gives the target of that entry the weight of
/// the entry more, and every other target what it gave before.
pub proof fn lemma_entry_push(row: Seq<(u16, u16)>, e: (u16, u16), j: int)
    ensures
        entry(row.push(e), j) == entry(row, j) + if e.0 == j {
            e.1 as nat
        } else {
            0nat
        },
{
    assert(row.push(e).drop_last() =~= row);
}

/// A row that names no entry for a target of its own stays with distinct
/// targets when an entry for a target that it does not name is added.
pub proof fn lemma_push_distinct(row: Seq<(u16, u16)>, e: (u16, u16))
    requires
        !has_duplicates(row_targets(row)),
        !names(row, e.0 as int),
    ensures
        !has_duplicates(row_targets(row.push(e))),
{
    let long = row.push(e);
    if has_duplicates(row_targets(long)) {
        let (a, b) = choose|a: int, b: int|
            0 <= a < b < row_targets(long).len() && row_targets(long)[a] == row_targets(long)[b];
        if b < row.len() {
            assert(row_targets(row)[a] == row_targets(row)[b]);
        } else {
            assert(row[a].0 == e.0);
        }
    }
}

/// The moving average of nothing is nothing.
pub proof fn lemma_ema_zero(alpha: nat)
    requires
        alpha <= ONE,
    ensures
        ema(0, 0, alpha) == 0,
{
    assert(alpha * 0 + (65535 - alpha) * 0 == 0) by (nonlinear_arith);
}

/// Looks up whether a row names `t`, and the weight that it gives to `t`.
fn weight_to(row: &Vec<(u16, u16)>, t: u16) -> (r: (bool, u16))
    requires
        !has_duplicates(row_targets(row@)),
    ensures
        r.0 == names(row@, t as int),
        r.1 == entry(row@, t as int),
{
    let mut k: usize = 0;
    while k < row.len()
        invariant
            k <= row.len(),
            !has_duplicates(row_targets(row@)),
            forall|x: int| 0 <= x < k ==> (#[trigger] row@[x]).0 != t,
        decreases row.len() - k,
    {
        if row[k].0 == t {
            proof {
                lemma_entry_unique(row@, k as int);
            }
            return (true, row[k].1);
        }
        k = k + 1;
    }
    proof {
        lemma_entry_absent(row@, t as int);
    }
    (false, 0)
}

/// Computes the moving average of a bond.
fn ema_of(prev: u16, cur: u16, alpha: u16) -> (r: u16)
    ensures
        r == ema(prev as nat, cur as nat, alpha as nat),
{
    let rest: u16 = ONE - alpha;
    assert(alpha * cur + rest * prev <= 65535 * 65535) by (nonlinear_arith)
        requires
            alpha + rest == 65535,
            cur <= 65535,
            prev <= 65535,
            0 <= alpha,
            0 <= rest,
    ;
    assert(alpha * cur <= 65535 * 65535 && rest * prev <= 65535 * 65535) by (nonlinear_arith)
        requires
            alpha <= 65535,
            rest <= 65535,
            cur <= 65535,
            prev <= 65535,
    ;
    let mixed: u64 = alpha as u64 * cur as u64 + rest as u64 * prev as u64;
    assert(mixed / 65535 <= 65535) by (nonlinear_arith)
        requires
            mixed <= 65535 * 65535,
    ;
    (mixed / (ONE as u64)) as u16
}

/// Computes the bonds that a slot holds after the epoch from the bonds that
/// it held and the weights of it that count.
fn next_bonds(
    old_row: &Vec<(u16, u16)>,
    w: &Vec<(u16, u16)>,
    alpha: u16,
    Ghost(n): Ghost<nat>,
) -> (r: Vec<(u16, u16)>)
    requires
        row_ok(old_row@, n),
        row_ok(w@, n),
    ensures
        row_ok(r@, n),
        forall|j: int|
            #[trigger] entry(r@, j) == ema(entry(old_row@, j), entry(w@, j), alpha as nat),
        forall|k: int| 0 <= k < r.len() ==> (#[trigger] r@[k]).1 > 0,
{
    let ghost a = alpha as nat;
    let mut out: Vec<(u16, u16)> = Vec::new();
    let mut k: usize = 0;
    assert(old_row@.take(0).len() == 0);
    while k < old_row.len()
        invariant
            k <= old_row.len(),
            a == alpha as nat,
            row_ok(old_row@, n),
            row_ok(w@, n),
            !has_duplicates(row_targets(out@)),
            forall|x: int|
                0 <= x < out.len() ==> (#[trigger] out@[x]).0 < n && out@[x].1 > 0 && names(
                    old_row@.take(k as int),
                    out@[x].0 as int,
                ),
            forall|j: int|
                #[trigger] entry(out@, j) == if names(old_row@.take(k as int), j) {
                    ema(entry(old_row@, j), entry(w@, j), a)
                } else {
                    0
                },
        decreases old_row.len() - k,
    {
        let e: (u16, u16) = old_row[k];
        let t: u16 = e.0;
        let found: (bool, u16) = weight_to(w, t);
        let v: u16 = ema_of(e.1, found.1, alpha);
        let ghost before = out@;
        proof {
            lemma_entry_unique(old_row@, k as int);
            lemma_not_named_before(old_row@, k as int);
            assert(!names(before, t as int)) by {
                if names(before, t as int) {
                    let x = choose|x: int| 0 <= x < before.len() && (#[trigger] before[x]).0 == t;
                    assert(names(old_row@.take(k as int), before[x].0 as int));
                }
            }
        }
        if v > 0 {
            out.push((t, v));
            proof {
                lemma_push_distinct(before, (t, v));
            }
        }
        proof {
            assert forall|x: int| 0 <= x < out.len() implies (#[trigger] out@[x]).0 < n
                && out@[x].1 > 0 && names(old_row@.take(k + 1), out@[x].0 as int) by {
                lemma_names_step(old_row@, k as int, out@[x].0 as int);
                if x < before.len() {
                    assert(out@[x] == before[x]);
                }
            }
            assert forall|j: int|
                #[trigger] entry(out@, j) == if names(old_row@.take(k + 1), j) {
                    ema(entry(old_row@, j), entry(w@, j), a)
                } else {
                    0
                } by {
                lemma_names_step(old_row@, k as int, j);
                assert(entry(before, j) == if names(old_row@.take(k as int), j) {
                    ema(entry(old_row@, j), entry(w@, j), a)
                } else {
                    0
                });
                if v > 0 {
                    lemma_entry_push(before, (t, v), j);
                }
            }
        }
        k = k + 1;
    }
    proof {
        lemma_take_all(old_row@);
    }
    let mut k: usize = 0;
    assert forall|j: int| !names(w@.take(0), j) by {
        assert(w@.take(0).len() == 0);
    }
    while k < w.len()
        invariant
            k <= w.len(),
            a == alpha as nat,
            row_ok(old_row@, n),
            row_ok(w@, n),
            !has_duplicates(row_targets(out@)),
            forall|x: int|
                0 <= x < out.len() ==> (#[trigger] out@[x]).0 < n && out@[x].1 > 0 && (names(
                    old_row@,
                    out@[x].0 as int,
                ) || names(w@.take(k as int), out@[x].0 as int)),
            forall|j: int|
                #[trigger] entry(out@, j) == if names(old_row@, j) {
                    ema(entry(old_row@, j), entry(w@, j), a)
                } else if names(w@.take(k as int), j) {
                    ema(0, entry(w@, j), a)
                } else {
                    0
                },
        decreases w.len() - k,
    {
        let e: (u16, u16) = w[k];
        let t: u16 = e.0;
        let held: (bool, u16) = weight_to(old_row, t);
        let v: u16 = ema_of(0, e.1, alpha);
        let ghost before = out@;
        proof {
            lemma_entry_unique(w@, k as int);
            lemma_not_named_before(w@, k as int);
            if !held.0 {
                assert(!names(before, t as int)) by {
                    if names(before, t as int) {
                        let x = choose|x: int|
                            0 <= x < before.len() && (#[trigger] before[x]).0 == t;
                        assert(names(old_row@, before[x].0 as int) || names(
                            w@.take(k as int),
                            before[x].0 as int,
                        ));
                    }
                }
            }
        }
        if !held.0 && v > 0 {
            out.push((t, v));
            proof {
                lemma_push_distinct(before, (t, v));
            }
        }
        proof {
            assert forall|x: int| 0 <= x < out.len() implies (#[trigger] out@[x]).0 < n
                && out@[x].1 > 0 && (names(old_row@, out@[x].0 as int) || names(
                w@.take(k + 1),
                out@[x].0 as int,
            )) by {
                lemma_names_step(w@, k as int, out@[x].0 as int);
                if x < before.len() {
                    assert(out@[x] == before[x]);
                }
            }
            assert forall|j: int|
                #[trigger] entry(out@, j) == if names(old_row@, j) {
                    ema(entry(old_row@, j), entry(w@, j), a)
                } else if names(w@.take(k + 1), j) {
                    ema(0, entry(w@, j), a)
                } else {
                    0
                } by {
                lemma_names_step(w@, k as int, j);
                assert(entry(before, j) == if names(old_row@, j) {
                    ema(entry(old_row@, j), entry(w@, j), a)
                } else if names(w@.take(k as int), j) {
                    ema(0, entry(w@, j), a)
                } else {
                    0
                });
                if !held.0 && v > 0 {
                    lemma_entry_push(before, (t, v), j);
                }
            }
        }
        k = k + 1;
    }
    proof {
        lemma_take_all(w@);
        assert forall|j: int|
            #[trigger] entry(out@, j) == ema(entry(old_row@, j), entry(w@, j), a) by {
            if !names(old_row@, j) {
                lemma_entry_absent(old_row@, j);
                if !names(w@, j) {
                    lemma_entry_absent(w@, j);
                    lemma_ema_zero(a);
                }
            }
        }
    }
    out
}

/// The sum over the entries of `row` of the entry's weight times the entry
/// of `x` for the entry's target.
pub open spec fn sparse(row: Seq<(u16, u16)>, x: Seq<nat>) -> nat
    decreases row.len(),
{
    if row.len() == 0 {
        0
    } else {
        sparse(row.drop_last(), x) + (row.last().1 as nat) * x[row.last().0 as int]
    }
}

/// Summed over targets, a row with one more entry gives that entry's
/// weight times the entry of `x` for its target more.
pub proof fn lemma_dot_push(row: Seq<(u16, u16)>, e: (u16, u16), x: Seq<nat>, upto: nat)
    ensures
        dot(row.push(e), x, upto) == dot(row, x, upto) + if e.0 < upto {
            e.1 * x[e.0 as int]
        } else {
            0
        },
    decreases upto,
{
    if upto > 0 {
        let j = upto - 1;
        lemma_dot_push(row, e, x, j as nat);
        lemma_entry_push(row, e, j);
        let a = entry(row, j);
        let b = e.1 as nat;
        let c = x[j];
        assert((a + b) * c == a * c + b * c) by (nonlinear_arith);
    }
}

/// Summed over targets, an empty row gives nothing.
pub proof fn lemma_dot_empty(row: Seq<(u16, u16)>, x: Seq<nat>, upto: nat)
    requires
        row.len() == 0,
    ensures
        dot(row, x, upto) == 0,
    decreases upto,
{
    if upto > 0 {
        lemma_dot_empty(row, x, (upto - 1) as nat);
        let c = x[upto - 1];
        assert(0 * c == 0) by (nonlinear_arith);
    }
}

/// Summing over the entries of a row is summing over its targets.
pub proof fn lemma_sparse_dot(row: Seq<(u16, u16)>, x: Seq<nat>, n: nat)
    requires
        forall|k: int| 0 <= k < row.len() ==> (#[trigger] row[k]).0 < n,
    ensures
        sparse(row, x) == dot(row, x, n),
    decreases row.len(),
{
    if row.len() == 0 {
        lemma_dot_empty(row, x, n);
    } else {
        let p = row.drop_last();
        let e = row.last();
        assert(row =~= p.push(e));
        assert forall|k: int| 0 <= k < p.len() implies (#[trigger] p[k]).0 < n by {
            assert(row[k].0 < n);
        }
        lemma_sparse_dot(p, x, n);
        lemma_dot_push(p, e, x, n);
        assert(row[row.len() - 1].0 < n);
    }
}

/// A row that gives each slot the bond that slot `i` is due earns what the
/// bonds of slot `i` earn.
pub proof fn lemma_dot_earning(g: Graph, i: int, row: Seq<(u16, u16)>, upto: nat)
    requires
        forall|j: int| 0 <= j < upto ==> #[trigger] entry(row, j) == g.bond(i, j),
    ensures
        dot(row, g.incentive(), upto) == earning(g, i, upto),
    decreases upto,
{
    if upto > 0 {
        lemma_dot_earning(g, i, row, (upto - 1) as nat);
        assert(entry(row, upto - 1) == g.bond(i, upto - 1));
    }
}

/// Sums over the entries of a row the entry's weight times the incentive
/// of the entry's target.
fn earn(row: &Vec<(u16, u16)>, incentive: &Vec<u16>) -> (r: u64)
    requires
        row_ok(row@, incentive@.len()),
        incentive.len() <= MAX_LEN,
    ensures
        r == sparse(row@, nats16(incentive@)),
{
    proof {
        assert forall|k: int| 0 <= k < row_targets(row@).len() implies row_targets(row@)[k]
            < incentive@.len() by {
            assert(row@[k].0 < incentive@.len());
        }
        crate::weights::lemma_distinct_len(row_targets(row@), incentive@.len());
    }
    let mut acc: u64 = 0;
    let mut k: usize = 0;
    assert(row@.take(0).len() == 0);
    while k < row.len()
        invariant
            k <= row.len(),
            row.len() <= MAX_LEN,
            row_ok(row@, incentive@.len()),
            acc == sparse(row@.take(k as int), nats16(incentive@)),
            acc <= k * 4294836225,
        decreases row.len() - k,
    {
        let e: (u16, u16) = row[k];
        assert(row@[k as int].0 < incentive@.len());
        let x: u64 = incentive[e.0 as usize] as u64;
        let b: u64 = e.1 as u64;
        proof {
            lemma_take_step(row@, k as int);
            assert(b * x <= 4294836225) by (nonlinear_arith)
                requires
                    b <= 65535,
                    x <= 65535,
            ;
            assert(nats16(incentive@)[e.0 as int] == x);
        }
        acc = acc + b * x;
        k = k + 1;
    }
    proof {
        lemma_take_all(row@);
    }
    acc
}

/// Splits the budget into what each slot is paid for its incentive and for
/// its dividends.
fn emit(
    incentive: &Vec<u16>,
    dividends: &Vec<u16>,
    split: u16,
    budget: u64,
    Ghost(g): Ghost<Graph>,
) -> (r: Vec<u64>)
    requires
        g.hyper.split == split,
        g.budget == budget,
        nats16(incentive@) == g.incentive(),
        nats16(dividends@) == g.dividends(),
        incentive.len() == g.n(),
        dividends.len() == g.n(),
    ensures
        nats(r@) == g.emission(),
        r.len() == g.n(),
{
    assert(budget * split <= 0xffff_ffff_ffff_ffff * 0xffff && budget * split / 65535 <= budget)
        by (nonlinear_arith)
        requires
            budget <= 0xffff_ffff_ffff_ffff,
            split <= 0xffff,
            0 <= budget,
            0 <= split,
    ;
    let for_incentive: u64 = ((budget as u128 * split as u128) / (ONE as u128)) as u64;
    let for_dividends: u64 = budget - for_incentive;
    let mut r: Vec<u64> = Vec::new();
    let mut i: usize = 0;
    while i < incentive.len()
        invariant
            i <= incentive.len(),
            nats16(incentive@) == g.incentive(),
            nats16(dividends@) == g.dividends(),
            incentive.len() == g.n(),
            dividends.len() == g.n(),
            for_incentive == g.incentive_pool(),
            for_dividends == g.dividend_pool(),
            for_incentive + for_dividends == budget,
            r.len() == i,
            forall|x: int| 0 <= x < i ==> r@[x] as nat == g.emission()[x],
        decreases incentive.len() - i,
    {
        let a: u16 = incentive[i];
        let b: u16 = dividends[i];
        assert(nats16(incentive@)[i as int] == a);
        assert(nats16(dividends@)[i as int] == b);
        assert(for_incentive * a <= 0xffff_ffff_ffff_ffff * 0xffff && for_incentive * a / 65535
            <= for_incentive) by (nonlinear_arith)
            requires
                for_incentive <= 0xffff_ffff_ffff_ffff,
                a <= 0xffff,
                0 <= for_incentive,
                0 <= a,
        ;
        assert(for_dividends * b <= 0xffff_ffff_ffff_ffff * 0xffff && for_dividends * b / 65535
            <= for_dividends) by (nonlinear_arith)
            requires
                for_dividends <= 0xffff_ffff_ffff_ffff,
                b <= 0xffff,
                0 <= for_dividends,
                0 <= b,
        ;
        let pay_incentive: u64 = ((for_incentive as u128 * a as u128) / (ONE as u128)) as u64;
        let pay_dividends: u64 = ((for_dividends as u128 * b as u128) / (ONE as u128)) as u64;
        r.push(pay_incentive + pay_dividends);
        i = i + 1;
    }
    proof {
        assert(nats(r@) =~= g.emission());
    }
    r
}

/// What an epoch computes.
pub struct Scores {
    pub rank: Vec<u16>,
    pub trust: Vec<u16>,
    pub consensus: Vec<u16>,
    pub incentive: Vec<u16>,
    pub dividends: Vec<u16>,
    /// The bonds that each slot holds after the epoch.
    pub bonds: Vec<Vec<(u16, u16)>>,
    pub emission: Vec<u64>,
}

impl Scores {
    /// Whether these are the scores of the epoch that starts from `g`.
    pub open spec fn of(self, g: Graph) -> bool {
        &&& nats16(self.rank@) == g.rank()
        &&& nats16(self.trust@) == g.trust()
        &&& nats16(self.consensus@) == g.consensus()
        &&& nats16(self.incentive@) == g.incentive()
        &&& nats16(self.dividends@) == g.dividends()
        &&& g.bonds_are(rows_view(self.bonds@))
        &&& nats(self.emission@) == g.emission()
    }
}

/// Runs an epoch on the vectors of a subnetwork: normalizes the stake that
/// takes part, clips and normalizes the weights, and computes rank, trust,
/// consensus, incentive, the bonds after the epoch, dividends and emission.
pub fn compute(
    stake: &Vec<u64>,
    active: &Vec<bool>,
    weights: &Vec<Vec<(u16, u16)>>,
    bonds: &Vec<Vec<(u16, u16)>>,
    hyper: Hyper,
    budget: u64,
) -> (out: Scores)
    requires
        (Graph {
            stake: stake@,
            active: active@,
            weights: rows_view(weights@),
            bonds: rows_view(bonds@),
            hyper,
            budget,
        }).wf(),
    ensures
        out.of(
            Graph {
                stake: stake@,
                active: active@,
                weights: rows_view(weights@),
                bonds: rows_view(bonds@),
                hyper,
                budget,
            },
        ),
{
    let ghost g = Graph {
        stake: stake@,
        active: active@,
        weights: rows_view(weights@),
        bonds: rows_view(bonds@),
        hyper,
        budget,
    };
    let n: usize = stake.len();
    let live: Vec<u64> = live_stakes(stake, active, Ghost(g));
    let staked: bool = total(&live) > 0;
    let shares: Vec<u16> = normalize(&live);
    let used: Vec<Vec<(u16, u16)>> = used_rows(weights, active, staked, hyper, Ghost(g));
    proof {
        lemma_used_ok(g);
    }
    let num: Vec<u64> = scatter(&shares, &used);
    let sup: Vec<Vec<(u16, u16)>> = support_rows(&used);
    let back: Vec<u64> = scatter(&shares, &sup);
    let graded: (Vec<u16>, Vec<u16>, Vec<u16>) = grade(&num, &back, hyper, Ghost(g));
    let rank: Vec<u16> = graded.0;
    let trust: Vec<u16> = graded.1;
    let consensus: Vec<u16> = graded.2;
    let wide: Vec<u64> = crate::fixed::widen(&consensus);
    let incentive: Vec<u16> = normalize(&wide);
    let mut after: Vec<Vec<(u16, u16)>> = Vec::new();
    let mut i: usize = 0;
    while i < n
        invariant
            i <= n,
            n == g.n(),
            g.wf(),
            g.hyper == hyper,
            g.bonds == rows_view(bonds@),
            bonds.len() == n,
            used.len() == n,
            rows_view(used@) == g.used(),
            rows_ok(g.used()),
            after.len() == i,
            forall|x: int| 0 <= x < i ==> row_ok((#[trigger] after@[x])@, n as nat),
            forall|x: int, j: int|
                0 <= x < i && 0 <= j < n ==> #[trigger] entry(after@[x]@, j) == g.bond(x, j),
            forall|x: int, k: int|
                0 <= x < i && 0 <= k < after@[x]@.len() ==> (#[trigger] after@[x]@[k]).1 > 0,
        decreases n - i,
    {
        assert(g.bonds[i as int] == bonds@[i as int]@);
        assert(g.used()[i as int] == used@[i as int]@);
        assert(row_ok(g.bonds[i as int], n as nat));
        assert(row_ok(g.used()[i as int], n as nat));
        let row: Vec<(u16, u16)> = next_bonds(&bonds[i], &used[i], hyper.alpha, Ghost(n as nat));
        proof {
            assert forall|j: int| 0 <= j < n implies #[trigger] entry(row@, j) == g.bond(
                i as int,
                j,
            ) by {}
        }
        after.push(row);
        i = i + 1;
    }
    let mut earned: Vec<u64> = Vec::new();
    let mut i: usize = 0;
    while i < n
        invariant
            i <= n,
            n == g.n(),
            n <= MAX_LEN,
            after.len() == n,
            incentive.len() == n,
            nats16(incentive@) == g.incentive(),
            forall|x: int| 0 <= x < n ==> row_ok((#[trigger] after@[x])@, n as nat),
            forall|x: int, j: int|
                0 <= x < n && 0 <= j < n ==> #[trigger] entry(after@[x]@, j) == g.bond(x, j),
            earned.len() == i,
            forall|x: int| 0 <= x < i ==> earned@[x] == g.earned(x),
        decreases n - i,
    {
        assert(row_ok(after@[i as int]@, n as nat));
        let paid: u64 = earn(&after[i], &incentive);
        proof {
            let row = after@[i as int]@;
            lemma_sparse_dot(row, g.incentive(), n as nat);
            assert forall|j: int| 0 <= j < n implies #[trigger] entry(row, j) == g.bond(
                i as int,
                j,
            ) by {}
            lemma_dot_earning(g, i as int, row, n as nat);
        }
        earned.push(paid);
        i = i + 1;
    }
    let dividends: Vec<u16> = normalize(&earned);
    proof {
        assert(nats(earned@) =~= Seq::new(g.n(), |i: int| g.earned(i)));
    }
    let emission: Vec<u64> = emit(&incentive, &dividends, hyper.split, budget, Ghost(g));
    let out = Scores { rank, trust, consensus, incentive, dividends, bonds: after, emission };
    proof {
        let rows = rows_view(out.bonds@);
        assert(rows.len() == g.n());
        assert forall|x: int| 0 <= x < rows.len() implies row_ok(#[trigger] rows[x], rows.len()) by {
            assert(row_ok(after@[x]@, n as nat));
        }
        assert forall|x: int, j: int| 0 <= x < g.n() && 0 <= j < g.n() implies #[trigger] entry(
            rows[x],
            j,
        ) == g.bond(x, j) by {
            assert(entry(after@[x]@, j) == g.bond(x, j));
        }
        assert forall|x: int, k: int| 0 <= x < g.n() && 0 <= k < rows[x].len() implies (
        #[trigger] rows[x][k]).1 > 0 by {
            assert(after@[x]@[k].1 > 0);
        }
    }
    out
}

/// A row whose weights are all zero gives nothing to any target.
pub proof fn lemma_entry_zero(row: Seq<(u16, u16)>, j: int)
    requires
        forall|k: int| 0 <= k < row.len() ==> (#[trigger] row[k]).1 == 0,
    ensures
        entry(row, j) == 0,
    decreases row.len(),
{
    if row.len() > 0 {
        assert(row[row.len() - 1].1 == 0);
        assert forall|k: int| 0 <= k < row.drop_last().len() implies (#[trigger] row.drop_last()[k]).1
            == 0 by {
            assert(row[k].1 == 0);
        }
        lemma_entry_zero(row.drop_last(), j);
    }
}

/// Where no slot has incentive, no bonds earn anything.
pub proof fn lemma_earning_zero(g: Graph, i: int, upto: nat)
    requires
        upto <= g.n(),
        forall|j: int| 0 <= j < g.n() ==> g.incentive()[j] == 0,
    ensures
        earning(g, i, upto) == 0,
    decreases upto,
{
    if upto > 0 {
        lemma_earning_zero(g, i, (upto - 1) as nat);
        let b = g.bond(i, upto - 1);
        assert(g.incentive()[upto - 1] == 0);
        assert(b * 0 == 0) by (nonlinear_arith);
    }
}

/// An epoch in which no stake takes part gives every slot a rank, trust,
/// consensus, incentive, dividends and emission of zero, and leaves of each
/// bond what the moving average keeps of it beside a weight of zero.
pub proof fn lemma_unstaked(g: Graph)
    requires
        g.wf(),
        !g.staked(),
    ensures
        g.rank() == zeros(g.n()),
        g.trust() == zeros(g.n()),
        g.consensus() == zeros(g.n()),
        g.incentive() == zeros(g.n()),
        g.dividends() == zeros(g.n()),
        g.emission() == zeros(g.n()),
        forall|i: int, j: int|
            0 <= i < g.n() ==> #[trigger] g.bond(i, j) == ema(
                entry(g.bonds[i], j),
                0,
                g.hyper.alpha as nat,
            ),
{
    let n = g.n();
    let s = g.shares();
    assert forall|j: int| 0 <= j < n implies g.rank_num(j) == 0 && g.backing(j) == 0 by {
        lemma_flow_zero(s, g.used(), n, j);
        lemma_flow_zero(s, supports(g.used()), n, j);
    }
    assert(g.rank() =~= zeros(n));
    assert(g.trust() =~= zeros(n));
    assert forall|j: int| 0 <= j < n implies g.consensus()[j] == 0 by {
        let x = gate(g.trust()[j], g.hyper.kappa as nat, g.hyper.rho as nat);
        assert(g.rank()[j] == 0);
        assert(0 * x == 0) by (nonlinear_arith);
    }
    assert(g.consensus() =~= zeros(n));
    lemma_sum_zeros(g.consensus());
    assert(g.incentive() =~= zeros(n));
    assert forall|i: int, j: int| 0 <= i < n implies #[trigger] g.bond(i, j) == ema(
        entry(g.bonds[i], j),
        0,
        g.hyper.alpha as nat,
    ) by {
        lemma_entry_zero(g.used_row(i), j);
    }
    let e = Seq::new(n, |i: int| g.earned(i));
    assert forall|i: int| 0 <= i < n implies e[i] == 0 by {
        lemma_earning_zero(g, i, n);
    }
    lemma_sum_zeros(e);
    assert(g.dividends() =~= zeros(n));
    assert forall|i: int| 0 <= i < n implies g.emission()[i] == 0 by {
        let a = g.incentive_pool();
        let b = g.dividend_pool();
        assert(g.incentive()[i] == 0);
        assert(g.dividends()[i] == 0);
        assert(a * 0 == 0 && b * 0 == 0) by (nonlinear_arith);
    }
    assert(g.emission() =~= zeros(n));
}

/// An epoch on a subnetwork in which all stake is zero gives every slot a
/// rank, consensus, incentive, dividends, trust and emission of zero, and
/// changes the bonds by decay alone.
pub proof fn lemma_zero_stake(g: Graph)
    requires
        g.wf(),
        forall|i: int| 0 <= i < g.n() ==> g.stake[i] == 0,
    ensures
        g.rank() == zeros(g.n()),
        g.trust() == zeros(g.n()),
        g.consensus() == zeros(g.n()),
        g.incentive() == zeros(g.n()),
        g.dividends() == zeros(g.n()),
        g.emission() == zeros(g.n()),
        forall|i: int, j: int|
            0 <= i < g.n() ==> #[trigger] g.bond(i, j) == ema(
                entry(g.bonds[i], j),
                0,
                g.hyper.alpha as nat,
            ),
{
    lemma_sum_zeros(g.live_stake());
    lemma_unstaked(g);
}

/// An epoch pays out no more than its budget.
pub proof fn lemma_emission_le_budget(g: Graph)
    ensures
        g.emission().len() == g.n(),
        sum(g.emission()) <= g.budget,
{
    let n = g.n();
    let one = ONE as nat;
    let pi = g.incentive_pool();
    let pd = g.dividend_pool();
    let budget = g.budget as nat;
    let split = g.hyper.split as nat;
    assert(budget * split / 65535 <= budget) by (nonlinear_arith)
        requires
            split <= 65535,
    ;
    let inc = g.incentive();
    let div = g.dividends();
    let a = Seq::new(n, |i: int| pi * inc[i] / one);
    let b = Seq::new(n, |i: int| pd * div[i] / one);
    assert forall|i: int| 0 <= i < n implies a[i] == inc[i] * pi / one by {
        assert(pi * inc[i] == inc[i] * pi) by (nonlinear_arith);
    }
    assert forall|i: int| 0 <= i < n implies b[i] == div[i] * pd / one by {
        assert(pd * div[i] == div[i] * pd) by (nonlinear_arith);
    }
    lemma_normalized_sum(g.consensus());
    lemma_normalized_sum(Seq::new(n, |i: int| g.earned(i)));
    crate::fixed::lemma_scaled_sum(a, inc, pi, one);
    crate::fixed::lemma_scaled_sum(b, div, pd, one);
    let sa = sum(a);
    let sb = sum(b);
    let si = sum(inc);
    let sd = sum(div);
    assert(sa <= pi) by (nonlinear_arith)
        requires
            65535 * sa <= pi * si,
            si <= 65535,
    ;
    assert(sb <= pd) by (nonlinear_arith)
        requires
            65535 * sb <= pd * sd,
            sd <= 65535,
    ;
    crate::fixed::lemma_sum_add(a, b, g.emission());
}

/// Tells whether every row has distinct targets, all of them below the
/// number of rows.
pub fn rows_in_order(rows: &Vec<Vec<(u16, u16)>>) -> (b: bool)
    ensures
        b == rows_ok(rows_view(rows@)),
{
    let n: usize = rows.len();
    let mut i: usize = 0;
    while i < n
        invariant
            i <= n,
            n == rows.len(),
            forall|x: int| 0 <= x < i ==> row_ok(#[trigger] rows_view(rows@)[x], n as nat),
        decreases n - i,
    {
        let row: &Vec<(u16, u16)> = &rows[i];
        assert(rows_view(rows@)[i as int] == row@);
        let targets: Vec<u16> = targets_of(row);
        if has_duplicate(&targets) {
            assert(!row_ok(rows_view(rows@)[i as int], n as nat));
            return false;
        }
        let mut k: usize = 0;
        while k < row.len()
            invariant
                k <= row.len(),
                i < n,
                n == rows.len(),
                rows_view(rows@)[i as int] == row@,
                !has_duplicates(row_targets(row@)),
                forall|x: int| 0 <= x < k ==> (#[trigger] row@[x]).0 < n,
            decreases row.len() - k,
        {
            if row[k].0 as usize >= n {
                assert(!row_ok(rows_view(rows@)[i as int], n as nat)) by {
                    assert(row@[k as int].0 >= n);
                }
                return false;
            }
            k = k + 1;
        }
        i = i + 1;
    }
    true
}

/// Runs an epoch on the vectors of a subnetwork if they fit together: one
/// entry for each slot in each, no more slots than uids can index, and in
/// every row distinct targets within the slots. Where they do not, there
/// is no result.
pub fn try_compute(
    stake: &Vec<u64>,
    active: &Vec<bool>,
    weights: &Vec<Vec<(u16, u16)>>,
    bonds: &Vec<Vec<(u16, u16)>>,
    hyper: Hyper,
    budget: u64,
) -> (r: Option<Scores>)
    ensures
        match r {
            Some(out) => (Graph {
                stake: stake@,
                active: active@,
                weights: rows_view(weights@),
                bonds: rows_view(bonds@),
                hyper,
                budget,
            }).wf() && out.of(
                Graph {
                    stake: stake@,
                    active: active@,
                    weights: rows_view(weights@),
                    bonds: rows_view(bonds@),
                    hyper,
                    budget,
                },
            ),
            None => !(Graph {
                stake: stake@,
                active: active@,
                weights: rows_view(weights@),
                bonds: rows_view(bonds@),
                hyper,
                budget,
            }).wf(),
        },
{
    let n: usize = stake.len();
    if n > MAX_LEN || active.len() != n || weights.len() != n || bonds.len() != n {
        return None;
    }
    if !rows_in_order(weights) || !rows_in_order(bonds) {
        return None;
    }
    Some(compute(stake, active, weights, bonds, hyper, budget))
}

} // verus!
