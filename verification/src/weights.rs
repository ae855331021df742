//! Weight rows: what makes one acceptable, and how a row is clipped and
//! normalized before it is used.
//!
//! A row is a list of pairs, a target uid and a weight. The functions on
//! weights alone take the list of the weights, in the row's order.

use vstd::prelude::*;
use vstd::set_lib::lemma_int_range;
use vstd::set_lib::lemma_len_subset;
use vstd::set_lib::set_int_range;
use crate::fixed::lemma_normalized_sum;
use crate::fixed::lemma_sum_entry_le;
use crate::fixed::lemma_take_all;
use crate::fixed::lemma_take_step;
use crate::fixed::nats;
use crate::fixed::nats16;
use crate::fixed::normalize;
use crate::fixed::normalized;
use crate::fixed::sum;
use crate::fixed::widen;
use crate::fixed::zeros;
use crate::fixed::ONE;
use crate::types::AccountId;
use crate::types::Error;

verus! {

/// How many entries of `v` are not zero.
pub open spec fn count_nonzero(v: Seq<nat>) -> nat
    decreases v.len(),
{
    if v.len() == 0 {
        0
    } else {
        count_nonzero(v.drop_last()) + if v.last() > 0 {
            1nat
        } else {
            0nat
        }
    }
}

/// The smallest entry of `v` that is not zero; zero where there is none.
pub open spec fn min_nonzero(v: Seq<nat>) -> nat
    decreases v.len(),
{
    if v.len() == 0 {
        0
    } else {
        let m = min_nonzero(v.drop_last());
        let x = v.last();
        if x == 0 {
            m
        } else if m == 0 || x < m {
            x
        } else {
            m
        }
    }
}

/// The largest weight that `ratio` allows beside the smallest non-zero one.
pub open spec fn cap(v: Seq<nat>, ratio: nat) -> nat {
    min_nonzero(v) * ratio
}

/// Whether some weight is more than `ratio` times the smallest non-zero one.
pub open spec fn exceeds_ratio(v: Seq<nat>, ratio: nat) -> bool {
    exists|i: int| 0 <= i < v.len() && v[i] > cap(v, ratio)
}

/// `v` with every weight above the cap lowered to the cap.
pub open spec fn clipped(v: Seq<nat>, ratio: nat) -> Seq<nat> {
    Seq::new(
        v.len(),
        |i: int|
            if v[i] <= cap(v, ratio) {
                v[i]
            } else {
                cap(v, ratio)
            },
    )
}

/// The weights that an epoch uses in place of `v`: all zero where fewer than
/// `min_allowed` of them are non-zero, else clipped and normalized.
pub open spec fn effective(v: Seq<nat>, min_allowed: nat, ratio: nat) -> Seq<nat> {
    if count_nonzero(v) < min_allowed {
        zeros(v.len())
    } else {
        normalized(clipped(v, ratio))
    }
}

/// The targets of a row, in order.
pub open spec fn row_targets(row: Seq<(u16, u16)>) -> Seq<u16> {
    row.map_values(|e: (u16, u16)| e.0)
}

/// The weights of a row, in order.
pub open spec fn row_values(row: Seq<(u16, u16)>) -> Seq<u16> {
    row.map_values(|e: (u16, u16)| e.1)
}

/// The row that pairs each target with the weight at the same place.
pub open spec fn zipped(uids: Seq<u16>, values: Seq<u16>) -> Seq<(u16, u16)> {
    Seq::new(uids.len(), |k: int| (uids[k], values[k]))
}

/// The rows of a matrix as sequences.
pub open spec fn rows_view(rows: Seq<Vec<(u16, u16)>>) -> Seq<Seq<(u16, u16)>> {
    rows.map_values(|r: Vec<(u16, u16)>| r@)
}

/// Whether some uid occurs at two places.
pub open spec fn has_duplicates(uids: Seq<u16>) -> bool {
    exists|a: int, b: int| 0 <= a < b < uids.len() && uids[a] == uids[b]
}

/// Whether `uid` is the uid of a registered neuron.
pub open spec fn is_live(keys: Seq<Option<AccountId>>, uid: int) -> bool {
    0 <= uid < keys.len() && keys[uid] is Some
}

/// Whether every uid names a registered neuron.
pub open spec fn all_live(uids: Seq<u16>, keys: Seq<Option<AccountId>>) -> bool {
    forall|k: int| 0 <= k < uids.len() ==> is_live(keys, #[trigger] uids[k] as int)
}

/// A stored row is well formed when no target occurs twice and every target
/// is a registered neuron.
pub open spec fn row_wf(row: Seq<(u16, u16)>, keys: Seq<Option<AccountId>>) -> bool {
    &&& !has_duplicates(row_targets(row))
    &&& all_live(row_targets(row), keys)
}

/// Why a set of weights is refused, if it is. The checks run in this order:
/// the two lists' lengths, duplicate targets, unknown targets, the number of
/// non-zero weights, and the ratio of the largest to the smallest of them.
pub open spec fn verdict(
    uids: Seq<u16>,
    values: Seq<u16>,
    keys: Seq<Option<AccountId>>,
    min_allowed: u16,
    ratio: u16,
) -> Option<Error> {
    if uids.len() != values.len() {
        Some(Error::WeightVecNotEqualSize)
    } else if has_duplicates(uids) {
        Some(Error::DuplicateUids)
    } else if !all_live(uids, keys) {
        Some(Error::InvalidUid)
    } else if count_nonzero(nats16(values)) < min_allowed {
        Some(Error::NotSettingEnoughWeights)
    } else if exceeds_ratio(nats16(values), ratio as nat) {
        Some(Error::MaxAllowedMaxMinRatioExceeded)
    } else {
        None
    }
}

/// The row that is stored for accepted weights: the targets as given, the
/// weights normalized.
pub open spec fn stored_row(uids: Seq<u16>, values: Seq<u16>) -> Seq<(u16, u16)> {
    Seq::new(uids.len(), |k: int| (uids[k], normalized(nats16(values))[k] as u16))
}

/// The smallest non-zero entry is zero only where every entry is zero; else
/// it is one of the entries, and no non-zero entry is below it.
pub proof fn lemma_min_nonzero(v: Seq<nat>)
    ensures
        count_nonzero(v) == 0 <==> min_nonzero(v) == 0,
        min_nonzero(v) > 0 ==> exists|i: int| 0 <= i < v.len() && v[i] == min_nonzero(v),
        forall|i: int| 0 <= i < v.len() && v[i] > 0 ==> 0 < min_nonzero(v) <= v[i],
    decreases v.len(),
{
    if v.len() > 0 {
        let p = v.drop_last();
        lemma_min_nonzero(p);
        let m = min_nonzero(v);
        if m > 0 {
            if m == v.last() {
                assert(v[v.len() - 1] == m);
            } else {
                let i = choose|i: int| 0 <= i < p.len() && p[i] == min_nonzero(p);
                assert(v[i] == m);
            }
        }
        assert forall|i: int| 0 <= i < v.len() && v[i] > 0 implies 0 < min_nonzero(v) <= v[i] by {
            if i < p.len() {
                assert(p[i] == v[i]);
            }
        }
    }
}

/// The number of non-zero entries is at most the number of entries.
pub proof fn lemma_count_nonzero_le(v: Seq<nat>)
    ensures
        count_nonzero(v) <= v.len(),
    decreases v.len(),
{
    if v.len() > 0 {
        lemma_count_nonzero_le(v.drop_last());
    }
}

/// Clipping with a ratio of at least one leaves a non-zero weight in a row
/// that has one.
pub proof fn lemma_clipped_sum_positive(v: Seq<nat>, ratio: nat)
    requires
        count_nonzero(v) > 0,
        ratio >= 1,
    ensures
        sum(clipped(v, ratio)) > 0,
{
    lemma_min_nonzero(v);
    let m = min_nonzero(v);
    let i = choose|i: int| 0 <= i < v.len() && v[i] == m;
    assert(m * ratio >= m) by (nonlinear_arith)
        requires
            ratio >= 1,
            m >= 0,
    ;
    assert(clipped(v, ratio)[i] == m);
    lemma_sum_entry_le(clipped(v, ratio), i);
}

/// The weights that an epoch uses from a row with enough non-zero weights,
/// at least one of them, and a ratio of at least one add up to one, short
/// by less than one unit for each weight, and never to more than one.
pub proof fn lemma_weight_normalization(v: Seq<nat>, min_allowed: nat, ratio: nat)
    requires
        count_nonzero(v) > 0,
        count_nonzero(v) >= min_allowed,
        ratio >= 1,
    ensures
        sum(effective(v, min_allowed, ratio)) <= ONE,
        sum(effective(v, min_allowed, ratio)) + v.len() > ONE,
{
    lemma_clipped_sum_positive(v, ratio);
    lemma_normalized_sum(clipped(v, ratio));
}

/// Distinct uids below `n` are at most `n` in number.
pub proof fn lemma_distinct_len(uids: Seq<u16>, n: nat)
    requires
        !has_duplicates(uids),
        forall|k: int| 0 <= k < uids.len() ==> uids[k] < n,
    ensures
        uids.len() <= n,
{
    let t = uids.map_values(|x: u16| x as int);
    assert forall|a: int, b: int| 0 <= a < t.len() && 0 <= b < t.len() && a != b implies t[a]
        != t[b] by {
        if a < b {
            assert(uids[a] != uids[b]);
        } else {
            assert(uids[b] != uids[a]);
        }
    }
    t.unique_seq_to_set();
    lemma_int_range(0, n as int);
    assert forall|x: int| t.to_set().contains(x) implies set_int_range(0, n as int).contains(
        x,
    ) by {
        let k = choose|k: int| 0 <= k < t.len() && t[k] == x;
        assert(uids[k] < n);
    }
    lemma_len_subset(t.to_set(), set_int_range(0, n as int));
}

/// The row stored for accepted weights keeps the targets, so it is well
/// formed where the targets are distinct and registered.
pub proof fn lemma_stored_row_wf(uids: Seq<u16>, values: Seq<u16>, keys: Seq<Option<AccountId>>)
    requires
        !has_duplicates(uids),
        all_live(uids, keys),
    ensures
        row_wf(stored_row(uids, values), keys),
        row_targets(stored_row(uids, values)) == uids,
{
    assert(row_targets(stored_row(uids, values)) =~= uids);
}

/// Counts the weights that are not zero.
pub fn count_nonzero_of(values: &Vec<u16>) -> (c: usize)
    ensures
        c == count_nonzero(nats16(values@)),
{
    let mut c: usize = 0;
    let mut i: usize = 0;
    while i < values.len()
        invariant
            i <= values.len(),
            c <= i,
            c == count_nonzero(nats16(values@).take(i as int)),
        decreases values.len() - i,
    {
        proof {
            lemma_take_step(nats16(values@), i as int);
        }
        if values[i] > 0 {
            c = c + 1;
        }
        i = i + 1;
    }
    proof {
        lemma_take_all(nats16(values@));
    }
    c
}

/// Finds the smallest weight that is not zero; zero where there is none.
pub fn min_nonzero_of(values: &Vec<u16>) -> (m: u16)
    ensures
        m == min_nonzero(nats16(values@)),
{
    let mut m: u16 = 0;
    let mut i: usize = 0;
    while i < values.len()
        invariant
            i <= values.len(),
            m == min_nonzero(nats16(values@).take(i as int)),
        decreases values.len() - i,
    {
        proof {
            lemma_take_step(nats16(values@), i as int);
        }
        let x: u16 = values[i];
        if x != 0 && (m == 0 || x < m) {
            m = x;
        }
        i = i + 1;
    }
    proof {
        lemma_take_all(nats16(values@));
    }
    m
}

/// Computes the cap that `ratio` puts on the weights.
pub fn cap_of(values: &Vec<u16>, ratio: u16) -> (limit: u64)
    ensures
        limit == cap(nats16(values@), ratio as nat),
{
    let m: u16 = min_nonzero_of(values);
    assert(m * ratio <= 0xffff * 0xffff) by (nonlinear_arith)
        requires
            m <= 0xffff,
            ratio <= 0xffff,
    ;
    m as u64 * ratio as u64
}

/// Tells whether some weight is above the cap that `ratio` puts on them.
pub fn ratio_exceeded(values: &Vec<u16>, ratio: u16) -> (b: bool)
    ensures
        b == exceeds_ratio(nats16(values@), ratio as nat),
{
    let limit: u64 = cap_of(values, ratio);
    let mut i: usize = 0;
    while i < values.len()
        invariant
            i <= values.len(),
            limit == cap(nats16(values@), ratio as nat),
            forall|k: int| 0 <= k < i ==> nats16(values@)[k] <= limit,
        decreases values.len() - i,
    {
        if values[i] as u64 > limit {
            assert(nats16(values@)[i as int] > cap(nats16(values@), ratio as nat));
            return true;
        }
        i = i + 1;
    }
    false
}

/// Lowers every weight above the cap to the cap.
pub fn clip(values: &Vec<u16>, ratio: u16) -> (r: Vec<u64>)
    ensures
        r.len() == values.len(),
        nats(r@) == clipped(nats16(values@), ratio as nat),
{
    let limit: u64 = cap_of(values, ratio);
    let mut r: Vec<u64> = Vec::new();
    let mut i: usize = 0;
    while i < values.len()
        invariant
            i <= values.len(),
            r.len() == i,
            limit == cap(nats16(values@), ratio as nat),
            forall|k: int|
                0 <= k < i ==> r@[k] as nat == clipped(nats16(values@), ratio as nat)[k],
        decreases values.len() - i,
    {
        let x: u64 = values[i] as u64;
        r.push(
            if x <= limit {
                x
            } else {
                limit
            },
        );
        i = i + 1;
    }
    proof {
        assert(nats(r@) =~= clipped(nats16(values@), ratio as nat));
    }
    r
}

/// Computes the weights that an epoch uses in place of `values`.
pub fn effective_values(values: &Vec<u16>, min_allowed: u16, ratio: u16) -> (r: Vec<u16>)
    ensures
        r.len() == values.len(),
        nats16(r@) == effective(nats16(values@), min_allowed as nat, ratio as nat),
{
    let c: usize = count_nonzero_of(values);
    if c < min_allowed as usize {
        let r: Vec<u16> = vec![0u16; values.len()];
        proof {
            assert(nats16(r@) =~= zeros(values@.len()));
        }
        r
    } else {
        let clipped_values: Vec<u64> = clip(values, ratio);
        normalize(&clipped_values)
    }
}

/// Tells whether some uid occurs at two places.
pub fn has_duplicate(uids: &Vec<u16>) -> (b: bool)
    ensures
        b == has_duplicates(uids@),
{
    let mut j: usize = 0;
    while j < uids.len()
        invariant
            j <= uids.len(),
            forall|a: int, b: int| 0 <= a < b < j ==> uids@[a] != uids@[b],
        decreases uids.len() - j,
    {
        let mut i: usize = 0;
        while i < j
            invariant
                i <= j < uids.len(),
                forall|a: int| 0 <= a < i ==> uids@[a] != uids@[j as int],
            decreases j - i,
        {
            if uids[i] == uids[j] {
                return true;
            }
            i = i + 1;
        }
        j = j + 1;
    }
    false
}

/// Tells whether every uid names a registered neuron.
pub fn targets_live(uids: &Vec<u16>, keys: &Vec<Option<AccountId>>) -> (b: bool)
    ensures
        b == all_live(uids@, keys@),
{
    let mut k: usize = 0;
    while k < uids.len()
        invariant
            k <= uids.len(),
            forall|x: int| 0 <= x < k ==> is_live(keys@, #[trigger] uids@[x] as int),
        decreases uids.len() - k,
    {
        let u: usize = uids[k] as usize;
        if u >= keys.len() || keys[u].is_none() {
            assert(!is_live(keys@, uids@[k as int] as int));
            return false;
        }
        k = k + 1;
    }
    true
}

/// Checks a set of weights against the rules of the subnetwork that they
/// are set on, and names the first rule that they break.
pub fn check_weights(
    uids: &Vec<u16>,
    values: &Vec<u16>,
    keys: &Vec<Option<AccountId>>,
    min_allowed: u16,
    ratio: u16,
) -> (r: Result<(), Error>)
    ensures
        match verdict(uids@, values@, keys@, min_allowed, ratio) {
            Some(e) => r == Err::<(), Error>(e),
            None => r is Ok,
        },
{
    if uids.len() != values.len() {
        return Err(Error::WeightVecNotEqualSize);
    }
    if has_duplicate(uids) {
        return Err(Error::DuplicateUids);
    }
    if !targets_live(uids, keys) {
        return Err(Error::InvalidUid);
    }
    if count_nonzero_of(values) < min_allowed as usize {
        return Err(Error::NotSettingEnoughWeights);
    }
    if ratio_exceeded(values, ratio) {
        return Err(Error::MaxAllowedMaxMinRatioExceeded);
    }
    Ok(())
}

/// Pairs each target with the weight at the same place.
pub fn zip(uids: &Vec<u16>, values: &Vec<u16>) -> (r: Vec<(u16, u16)>)
    requires
        uids.len() == values.len(),
    ensures
        r@ == zipped(uids@, values@),
{
    let mut r: Vec<(u16, u16)> = Vec::new();
    let mut k: usize = 0;
    while k < uids.len()
        invariant
            k <= uids.len(),
            uids.len() == values.len(),
            r.len() == k,
            forall|x: int| 0 <= x < k ==> r@[x] == (uids@[x], values@[x]),
        decreases uids.len() - k,
    {
        r.push((uids[k], values[k]));
        k = k + 1;
    }
    proof {
        assert(r@ =~= zipped(uids@, values@));
    }
    r
}

/// Takes the targets out of a row.
pub fn targets_of(row: &Vec<(u16, u16)>) -> (r: Vec<u16>)
    ensures
        r@ == row_targets(row@),
{
    let mut r: Vec<u16> = Vec::new();
    let mut k: usize = 0;
    while k < row.len()
        invariant
            k <= row.len(),
            r.len() == k,
            forall|x: int| 0 <= x < k ==> r@[x] == row@[x].0,
        decreases row.len() - k,
    {
        r.push(row[k].0);
        k = k + 1;
    }
    proof {
        assert(r@ =~= row_targets(row@));
    }
    r
}

/// Takes the weights out of a row.
pub fn values_of(row: &Vec<(u16, u16)>) -> (r: Vec<u16>)
    ensures
        r@ == row_values(row@),
{
    let mut r: Vec<u16> = Vec::new();
    let mut k: usize = 0;
    while k < row.len()
        invariant
            k <= row.len(),
            r.len() == k,
            forall|x: int| 0 <= x < k ==> r@[x] == row@[x].1,
        decreases row.len() - k,
    {
        r.push(row[k].1);
        k = k + 1;
    }
    proof {
        assert(r@ =~= row_values(row@));
    }
    r
}

/// Builds the row that is stored for accepted weights: the targets as
/// given, the weights normalized.
pub fn normalized_row(uids: &Vec<u16>, values: &Vec<u16>) -> (r: Vec<(u16, u16)>)
    requires
        uids.len() == values.len(),
    ensures
        r.len() == uids.len(),
        r@ == stored_row(uids@, values@),
{
    let wide: Vec<u64> = widen(values);
    let shares: Vec<u16> = normalize(&wide);
    let r: Vec<(u16, u16)> = zip(uids, &shares);
    proof {
        assert forall|k: int| 0 <= k < uids.len() implies r@[k] == stored_row(uids@, values@)[k] by {
            assert(nats16(shares@)[k] == shares@[k] as nat);
        }
        assert(r@ =~= stored_row(uids@, values@));
    }
    r
}

} // verus!
