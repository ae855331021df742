//! Fixed-point fractions and the normalization of a vector to a sum of one.

use vstd::prelude::*;
use vstd::arithmetic::div_mod::lemma_fundamental_div_mod;
use vstd::arithmetic::div_mod::lemma_mod_bound;
use vstd::arithmetic::mul::lemma_mul_is_distributive_add;

verus! {

/// The sixteen-bit numerator that stands for the fraction 1.
pub const ONE: u16 = 65535;

/// The longest vector that the arithmetic here is sized for: one entry for
/// each value of a sixteen-bit index.
pub const MAX_LEN: usize = 65536;

/// The sum of the entries of `s`.
pub open spec fn sum(s: Seq<nat>) -> nat
    decreases s.len(),
{
    if s.len() == 0 {
        0
    } else {
        sum(s.drop_last()) + s.last()
    }
}

/// The entries of a vector of 64-bit amounts as natural numbers.
pub open spec fn nats(v: Seq<u64>) -> Seq<nat> {
    v.map_values(|x: u64| x as nat)
}

/// The entries of a vector of sixteen-bit fractions as natural numbers.
pub open spec fn nats16(v: Seq<u16>) -> Seq<nat> {
    v.map_values(|x: u16| x as nat)
}

/// The sequence of `n` zeros.
pub open spec fn zeros(n: nat) -> Seq<nat> {
    Seq::new(n, |i: int| 0nat)
}

/// `x` as a fraction of `total`, in units of `1 / ONE` and rounded down;
/// zero when `total` is zero.
pub open spec fn share(x: nat, total: nat) -> nat {
    if total == 0 {
        0
    } else {
        x * (ONE as nat) / total
    }
}

/// Each entry of `s` as a fraction of the sum of `s`.
pub open spec fn normalized(s: Seq<nat>) -> Seq<nat> {
    Seq::new(s.len(), |i: int| share(s[i], sum(s)))
}

/// The prefix of length `i + 1` is the prefix of length `i` followed by `s[i]`.
pub proof fn lemma_take_step<A>(s: Seq<A>, i: int)
    requires
        0 <= i < s.len(),
    ensures
        s.take(i + 1).drop_last() == s.take(i),
        s.take(i + 1).last() == s[i],
        s.take(i + 1).len() == i + 1,
{
    assert(s.take(i + 1).drop_last() =~= s.take(i));
}

/// The prefix of full length is the sequence itself.
pub proof fn lemma_take_all<A>(s: Seq<A>)
    ensures
        s.take(s.len() as int) == s,
{
    assert(s.take(s.len() as int) =~= s);
}

/// Appending an entry adds it to the sum.
pub proof fn lemma_sum_push(s: Seq<nat>, x: nat)
    ensures
        sum(s.push(x)) == sum(s) + x,
{
    assert(s.push(x).drop_last() =~= s);
}

/// The sum of a prefix grows by the next entry.
pub proof fn lemma_sum_take_step(s: Seq<nat>, i: int)
    requires
        0 <= i < s.len(),
    ensures
        sum(s.take(i + 1)) == sum(s.take(i)) + s[i],
{
    assert(s.take(i + 1).drop_last() =~= s.take(i));
}

/// No entry is larger than the sum.
pub proof fn lemma_sum_entry_le(s: Seq<nat>, i: int)
    requires
        0 <= i < s.len(),
    ensures
        s[i] <= sum(s),
    decreases s.len(),
{
    if i < s.len() - 1 {
        lemma_sum_entry_le(s.drop_last(), i);
    }
}

/// Where no entry is above `bound`, the sum is at most `bound` for each
/// entry.
pub proof fn lemma_sum_bound(s: Seq<nat>, bound: nat)
    requires
        forall|i: int| 0 <= i < s.len() ==> s[i] <= bound,
    ensures
        sum(s) <= s.len() * bound,
    decreases s.len(),
{
    if s.len() > 0 {
        lemma_sum_bound(s.drop_last(), bound);
        assert(s.len() * bound == (s.len() - 1) * bound + bound) by (nonlinear_arith);
    }
}

/// A vector of zeros sums to zero.
pub proof fn lemma_sum_zeros(s: Seq<nat>)
    requires
        forall|i: int| 0 <= i < s.len() ==> s[i] == 0,
    ensures
        sum(s) == 0,
    decreases s.len(),
{
    if s.len() > 0 {
        lemma_sum_zeros(s.drop_last());
    }
}

/// Replacing one entry changes the sum by the difference of the two.
pub proof fn lemma_sum_update(s: Seq<nat>, i: int, x: nat)
    requires
        0 <= i < s.len(),
    ensures
        sum(s.update(i, x)) + s[i] == sum(s) + x,
    decreases s.len(),
{
    if i == s.len() - 1 {
        assert(s.update(i, x).drop_last() =~= s.drop_last());
    } else {
        lemma_sum_update(s.drop_last(), i, x);
        assert(s.update(i, x).drop_last() =~= s.drop_last().update(i, x));
    }
}

/// Where each `q[i]` is `s[i]` times `m` over `t`, rounded down, the `q[i]`
/// add up to the sum of `s` times `m` over `t`, short by less than one for
/// each entry.
pub proof fn lemma_scaled_sum(q: Seq<nat>, s: Seq<nat>, m: nat, t: nat)
    requires
        t > 0,
        q.len() == s.len(),
        forall|i: int| 0 <= i < s.len() ==> q[i] == s[i] * m / t,
    ensures
        t * sum(q) <= m * sum(s),
        m * sum(s) <= t * sum(q) + s.len() * (t - 1),
    decreases s.len(),
{
    if s.len() > 0 {
        let x = s.last();
        let y = q.last();
        let n = s.len();
        let qq = sum(q.drop_last());
        let ss = sum(s.drop_last());
        lemma_scaled_sum(q.drop_last(), s.drop_last(), m, t);
        lemma_fundamental_div_mod((x * m) as int, t as int);
        lemma_mod_bound((x * m) as int, t as int);
        let r = (x * m) % t;
        assert(y == x * m / t);
        lemma_mul_is_distributive_add(t as int, qq as int, y as int);
        lemma_mul_is_distributive_add(m as int, ss as int, x as int);
        assert(x * m == m * x) by (nonlinear_arith);
        assert(n * (t - 1) == (n - 1) * (t - 1) + (t - 1)) by (nonlinear_arith);
    } else {
        assert(t * 0 == 0 && m * 0 == 0) by (nonlinear_arith);
    }
}

/// A prefix sums to at most as much as the whole.
pub proof fn lemma_sum_take_le(s: Seq<nat>, k: int)
    requires
        0 <= k <= s.len(),
    ensures
        sum(s.take(k)) <= sum(s),
    decreases s.len() - k,
{
    if k < s.len() {
        lemma_sum_take_step(s, k);
        lemma_sum_take_le(s, k + 1);
    } else {
        lemma_take_all(s);
    }
}

/// The sum of two vectors added entry by entry is the sum of their sums.
pub proof fn lemma_sum_add(a: Seq<nat>, b: Seq<nat>, c: Seq<nat>)
    requires
        a.len() == c.len(),
        b.len() == c.len(),
        forall|i: int| 0 <= i < c.len() ==> c[i] == a[i] + b[i],
    ensures
        sum(c) == sum(a) + sum(b),
    decreases c.len(),
{
    if c.len() > 0 {
        lemma_sum_add(a.drop_last(), b.drop_last(), c.drop_last());
    }
}

/// A vector that is entry by entry at most another sums to at most as much.
pub proof fn lemma_sum_le(a: Seq<nat>, b: Seq<nat>)
    requires
        a.len() == b.len(),
        forall|i: int| 0 <= i < a.len() ==> a[i] <= b[i],
    ensures
        sum(a) <= sum(b),
    decreases a.len(),
{
    if a.len() > 0 {
        lemma_sum_le(a.drop_last(), b.drop_last());
    }
}

/// A normalized vector sums to one, short by less than one unit for each
/// entry, unless every entry is zero; it never sums to more than one.
pub proof fn lemma_normalized_sum(s: Seq<nat>)
    ensures
        sum(normalized(s)) <= ONE,
        sum(s) > 0 ==> sum(normalized(s)) + s.len() > ONE,
        sum(s) == 0 ==> sum(normalized(s)) == 0,
{
    let t = sum(s);
    let q = normalized(s);
    if t > 0 {
        lemma_scaled_sum(q, s, ONE as nat, t);
        let total_q = sum(q);
        let n = s.len();
        assert(total_q <= ONE) by (nonlinear_arith)
            requires
                t > 0,
                t * total_q <= ONE * t,
        ;
        assert(n * (t - 1) < n * t) by (nonlinear_arith)
            requires
                n > 0,
        ;
        assert(total_q + n > ONE) by (nonlinear_arith)
            requires
                t > 0,
                ONE * t < t * total_q + n * t,
        ;
    } else {
        lemma_sum_zeros(q);
    }
}

/// An entry that is no larger than the total is at most one as a fraction.
pub proof fn lemma_share_le_one(x: nat, total: nat)
    requires
        x <= total,
    ensures
        share(x, total) <= ONE,
{
    if total > 0 {
        assert(x * 65535 / total <= 65535) by (nonlinear_arith)
            requires
                x <= total,
                total > 0,
        ;
    }
}

/// The sum of the entries of `v`.
pub fn total(v: &Vec<u64>) -> (t: u128)
    ensures
        t == sum(nats(v@)),
{
    let mut t: u128 = 0;
    let mut i: usize = 0;
    while i < v.len()
        invariant
            i <= v.len(),
            t == sum(nats(v@).take(i as int)),
            t <= i * 0xffff_ffff_ffff_ffff,
        decreases v.len() - i,
    {
        proof {
            lemma_sum_take_step(nats(v@), i as int);
        }
        t = t + v[i] as u128;
        i = i + 1;
    }
    proof {
        assert(nats(v@).take(v.len() as int) =~= nats(v@));
    }
    t
}

/// Normalizes `v` to a sum of one: each entry becomes its fraction of the
/// sum of all entries, and a vector of zeros stays a vector of zeros.
pub fn normalize(v: &Vec<u64>) -> (r: Vec<u16>)
    ensures
        r.len() == v.len(),
        nats16(r@) == normalized(nats(v@)),
{
    let t: u128 = total(v);
    let mut r: Vec<u16> = Vec::new();
    let mut i: usize = 0;
    while i < v.len()
        invariant
            i <= v.len(),
            r.len() == i,
            t == sum(nats(v@)),
            forall|k: int| 0 <= k < i ==> r@[k] as nat == share(v@[k] as nat, t as nat),
        decreases v.len() - i,
    {
        let x: u64 = v[i];
        let q: u16 = if t == 0 {
            0
        } else {
            proof {
                lemma_sum_entry_le(nats(v@), i as int);
                lemma_share_le_one(x as nat, t as nat);
            }
            ((x as u128 * (ONE as u128)) / t) as u16
        };
        r.push(q);
        i = i + 1;
    }
    proof {
        assert(nats16(r@) =~= normalized(nats(v@)));
    }
    r
}

} // verus!

verus! {

/// Widens sixteen-bit values to 64 bits.
pub fn widen(v: &Vec<u16>) -> (r: Vec<u64>)
    ensures
        r.len() == v.len(),
        nats(r@) == nats16(v@),
{
    let mut r: Vec<u64> = Vec::new();
    let mut i: usize = 0;
    while i < v.len()
        invariant
            i <= v.len(),
            r.len() == i,
            forall|k: int| 0 <= k < i ==> r@[k] == v@[k],
        decreases v.len() - i,
    {
        r.push(v[i] as u64);
        i = i + 1;
    }
    proof {
        assert(nats(r@) =~= nats16(v@));
    }
    r
}

} // verus!
