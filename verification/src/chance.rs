//! Exact probabilities for Liar's Dice with wild ones.
//!
//! A probability is held as a ratio of two integers (`Chance`): the weight of
//! the favourable outcomes over the weight of all outcomes. Opponent dice are
//! fair six-sided dice, so every probability here is a count of die rolls.
//!
//! Opponent has `n` hidden dice. For bid face F a single die supports the bid
//! with chance 2/6 if F != 1 (die is F or 1) and 1/6 if F == 1 (only literal 1s).
use vstd::prelude::*;

verus! {

/// The probability `hits / total`.
#[derive(Clone, Copy, Debug, PartialEq, Eq, Structural)]
pub struct Chance {
    pub hits: u64,
    pub total: u64,
}

/// `b` to the power `e`, over the naturals.
pub open spec fn npow(b: nat, e: nat) -> nat
    decreases e,
{
    if e == 0 {
        1
    } else {
        b * npow(b, (e - 1) as nat)
    }
}

/// The binomial coefficient, by Pascal's rule.
pub open spec fn binomial(n: nat, k: nat) -> nat
    decreases n,
{
    if k == 0 {
        1
    } else if n == 0 {
        0
    } else {
        binomial((n - 1) as nat, (k - 1) as nat) + binomial((n - 1) as nat, k)
    }
}

/// Weight of the outcomes of `n` independent trials with exactly `k`
/// successes, when each trial succeeds in `a` and fails in `b` equally likely ways.
pub open spec fn exactly(n: nat, k: nat, a: nat, b: nat) -> nat {
    if k > n {
        0
    } else {
        binomial(n, k) * npow(a, k) * npow(b, (n - k) as nat)
    }
}

/// Weight of the outcomes of `n` trials with at least `k` successes.
pub open spec fn at_least(n: nat, k: nat, a: nat, b: nat) -> nat
    decreases n + 1 - k,
{
    if k > n {
        0
    } else {
        exactly(n, k, a, b) + at_least(n, k + 1, a, b)
    }
}

/// Ways a single die supports a claim on `face` (out of six).
pub open spec fn face_weight(face: u32) -> nat {
    if face == 1 {
        1
    } else {
        2
    }
}

/// The number of dice still needed from the opponent when we hold `mine`.
pub open spec fn still_needed(quantity: u32, mine: nat) -> nat {
    if mine >= quantity {
        0
    } else {
        (quantity - mine) as nat
    }
}

/// The chance that a bid on `face` for `quantity` dice holds when we hold
/// `mine` supporting dice and the opponent hides `opp_dice` fair dice.
pub open spec fn spec_p_bid_succeeds(quantity: u32, face: u32, mine: nat, opp_dice: u32) -> Chance {
    let w = face_weight(face);
    Chance {
        hits: at_least(opp_dice as nat, still_needed(quantity, mine), w, (6 - w) as nat) as u64,
        total: npow(6, opp_dice as nat) as u64,
    }
}

/// `c` is strictly below `pct` percent.
pub open spec fn below_pct(c: Chance, pct: nat) -> bool {
    c.hits * 100 < pct * c.total
}

impl Chance {
    /// Whether this probability is strictly below `pct` percent.
    pub fn below_percent(self, pct: u64) -> (r: bool)
        ensures
            r == below_pct(self, pct as nat),
    {
        proof {
            let x = pct as u128;
            let y = self.total as u128;
            assert(x * y <= u128::MAX) by (nonlinear_arith)
                requires
                    x <= u64::MAX,
                    y <= u64::MAX,
            ;
        }
        (self.hits as u128) * 100 < (pct as u128) * (self.total as u128)
    }
}

// ---------------------------------------------------------------- lemmas

/// A power of a positive base is positive.
pub proof fn lemma_npow_positive(b: nat, e: nat)
    requires
        b >= 1,
    ensures
        npow(b, e) >= 1,
    decreases e,
{
    if e > 0 {
        lemma_npow_positive(b, (e - 1) as nat);
        assert(b * npow(b, (e - 1) as nat) >= 1) by (nonlinear_arith)
            requires
                b >= 1,
                npow(b, (e - 1) as nat) >= 1,
        ;
    }
}

/// Every power of one is one.
pub proof fn lemma_npow_one(e: nat)
    ensures
        npow(1, e) == 1,
    decreases e,
{
    if e > 0 {
        lemma_npow_one((e - 1) as nat);
    }
}

/// Powers of a base of at least one grow with the exponent.
pub proof fn lemma_npow_mono_exp(b: nat, e1: nat, e2: nat)
    requires
        b >= 1,
        e1 <= e2,
    ensures
        npow(b, e1) <= npow(b, e2),
    decreases e2,
{
    if e1 < e2 {
        lemma_npow_mono_exp(b, e1, (e2 - 1) as nat);
        lemma_npow_positive(b, (e2 - 1) as nat);
        assert(npow(b, (e2 - 1) as nat) <= b * npow(b, (e2 - 1) as nat)) by (nonlinear_arith)
            requires
                b >= 1,
        ;
    }
}

/// Powers grow with the base.
pub proof fn lemma_npow_mono_base(b1: nat, b2: nat, e: nat)
    requires
        b1 <= b2,
    ensures
        npow(b1, e) <= npow(b2, e),
    decreases e,
{
    if e > 0 {
        lemma_npow_mono_base(b1, b2, (e - 1) as nat);
        let x = npow(b1, (e - 1) as nat);
        let y = npow(b2, (e - 1) as nat);
        assert(b1 * x <= b2 * y) by (nonlinear_arith)
            requires
                b1 <= b2,
                x <= y,
        ;
    }
}

proof fn lemma_choose_top(n: nat)
    ensures
        binomial(n, n) == 1,
        binomial(n, n + 1) == 0,
    decreases n,
{
    if n > 0 {
        lemma_choose_top((n - 1) as nat);
    }
    lemma_choose_zero_above(n, n + 1);
}

/// One more trial: the outcomes with `k` successes among `n + 1` trials are
/// those where the last trial succeeds (and `k - 1` of the first `n` do) or fails.
proof fn lemma_exactly_step(n: nat, k: nat, a: nat, b: nat)
    requires
        1 <= k,
    ensures
        exactly(n + 1, k, a, b) == a * exactly(n, (k - 1) as nat, a, b) + b * exactly(n, k, a, b),
{
    let k1 = (k - 1) as nat;
    if k > n + 1 {
        assert(a * 0 + b * 0 == 0) by (nonlinear_arith);
    } else if k == n + 1 {
        lemma_choose_top(n);
        lemma_choose_top(n + 1);
        let p = npow(a, k1);
        assert(npow(a, k) == a * p);
        assert(npow(b, 0) == 1);
        assert(exactly(n + 1, k, a, b) == 1 * (a * p) * 1);
        assert(exactly(n, k1, a, b) == 1 * p * 1);
        assert(1 * (a * p) * 1 == a * (1 * p * 1) + b * 0) by (nonlinear_arith);
    } else {
        let c1 = binomial(n, k1);
        let c2 = binomial(n, k);
        let pa = npow(a, k1);
        let pb = npow(b, (n - k) as nat);
        assert(binomial(n + 1, k) == c1 + c2);
        assert(npow(a, k) == a * pa);
        assert(npow(b, (n + 1 - k) as nat) == b * pb);
        assert(npow(b, (n - k1) as nat) == b * pb);
        assert((c1 + c2) * (a * pa) * (b * pb) == a * (c1 * pa * (b * pb)) + b * (c2 * (a * pa) * pb))
            by (nonlinear_arith);
    }
}

proof fn lemma_exactly_zero(n: nat, a: nat, b: nat)
    ensures
        exactly(n + 1, 0, a, b) == b * exactly(n, 0, a, b),
{
    let p = npow(b, n);
    assert(npow(b, (n + 1) as nat) == b * p);
    assert(1 * 1 * (b * p) == b * (1 * 1 * p)) by (nonlinear_arith);
}

/// Unfolding of `at_least` that also holds past the end.
proof fn lemma_at_least_unfold(n: nat, k: nat, a: nat, b: nat)
    ensures
        at_least(n, k, a, b) == exactly(n, k, a, b) + at_least(n, k + 1, a, b),
{
}

/// One more trial, for the tail: at least `k` successes among `n + 1` trials.
proof fn lemma_at_least_step(n: nat, k: nat, a: nat, b: nat)
    requires
        1 <= k,
    ensures
        at_least(n + 1, k, a, b) == a * at_least(n, (k - 1) as nat, a, b) + b * at_least(n, k, a, b),
    decreases n + 2 - k,
{
    if k > n + 1 {
        assert(at_least(n, k, a, b) == 0);
        assert(at_least(n, (k - 1) as nat, a, b) == 0);
        assert(a * 0 + b * 0 == 0) by (nonlinear_arith);
    } else {
        lemma_at_least_step(n, k + 1, a, b);
        lemma_exactly_step(n, k, a, b);
        lemma_at_least_unfold(n, (k - 1) as nat, a, b);
        lemma_at_least_unfold(n, k, a, b);
        let e1 = exactly(n, (k - 1) as nat, a, b);
        let e2 = exactly(n, k, a, b);
        let t1 = at_least(n, k, a, b);
        let t2 = at_least(n, k + 1, a, b);
        assert((a * e1 + b * e2) + (a * t1 + b * t2) == a * (e1 + t1) + b * (e2 + t2))
            by (nonlinear_arith);
    }
}

/// The binomial theorem: over all success counts the weights add up to
/// every outcome of the `n` trials, `(a + b)^n`. In terms of probabilities:
/// the chance of at least zero successes is one.
pub proof fn lemma_binomial_theorem(n: nat, a: nat, b: nat)
    ensures
        at_least(n, 0, a, b) == npow(a + b, n),
    decreases n,
{
    if n == 0 {
        assert(at_least(0, 1, a, b) == 0);
        assert(npow(a, 0) == 1);
        assert(npow(b, 0) == 1);
        assert(binomial(0, 0) == 1);
        assert(1nat * 1nat * 1nat == 1) by (nonlinear_arith);
        assert(exactly(0, 0, a, b) == 1);
    } else {
        let m = (n - 1) as nat;
        lemma_binomial_theorem(m, a, b);
        lemma_at_least_unfold(n, 0, a, b);
        lemma_at_least_unfold(m, 0, a, b);
        lemma_at_least_step(m, 1, a, b);
        lemma_exactly_zero(m, a, b);
        let e0 = exactly(m, 0, a, b);
        let t0 = at_least(m, 0, a, b);
        let t1 = at_least(m, 1, a, b);
        assert(b * e0 + (a * t0 + b * t1) == (a + b) * t0) by (nonlinear_arith)
            requires
                t0 == e0 + t1,
        ;
    }
}

/// Requiring more successes can only lower the weight.
pub proof fn lemma_at_least_antitone(n: nat, k1: nat, k2: nat, a: nat, b: nat)
    requires
        k1 <= k2,
    ensures
        at_least(n, k2, a, b) <= at_least(n, k1, a, b),
    decreases k2 - k1,
{
    if k1 < k2 {
        lemma_at_least_antitone(n, k1 + 1, k2, a, b);
        lemma_at_least_unfold(n, k1, a, b);
    }
}

/// Every tail, and every single term, is bounded by the weight of all outcomes.
pub proof fn lemma_at_least_bounded(n: nat, k: nat, a: nat, b: nat)
    ensures
        at_least(n, k, a, b) <= npow(a + b, n),
        exactly(n, k, a, b) <= npow(a + b, n),
{
    lemma_binomial_theorem(n, a, b);
    lemma_at_least_antitone(n, 0, k, a, b);
    lemma_at_least_unfold(n, k, a, b);
}

/// Binomial coefficients are bounded by `2^n`.
pub proof fn lemma_choose_bounded(n: nat, k: nat)
    ensures
        binomial(n, k) <= npow(2, n),
{
    lemma_at_least_bounded(n, k, 1, 1);
    if k <= n {
        lemma_npow_one(k);
        lemma_npow_one((n - k) as nat);
        assert(exactly(n, k, 1, 1) == binomial(n, k));
    } else {
        lemma_choose_zero_above(n, k);
    }
}

proof fn lemma_choose_zero_above(n: nat, k: nat)
    requires
        k > n,
    ensures
        binomial(n, k) == 0,
    decreases n,
{
    if n > 0 {
        lemma_choose_zero_above((n - 1) as nat, (k - 1) as nat);
        lemma_choose_zero_above((n - 1) as nat, k);
    }
}

proof fn lemma_two_pow_63()
    ensures
        npow(2, 63) <= u64::MAX,
{
    assert(npow(2, 63) == 9223372036854775808) by {
        reveal_with_fuel(npow, 64);
    }
}

// ---------------------------------------------------------------- exec

/// `b^e` where the result fits in a `u64`.
fn pow_u64(b: u64, e: u32) -> (r: u64)
    requires
        npow(b as nat, e as nat) <= u64::MAX,
    ensures
        r == npow(b as nat, e as nat),
{
    if b == 0 {
        if e == 0 {
            return 1;
        }
        assert(npow(0, e as nat) == 0 * npow(0, (e - 1) as nat));
        return 0;
    }
    let mut r: u64 = 1;
    let mut i: u32 = 0;
    while i < e
        invariant
            i <= e,
            b >= 1,
            r == npow(b as nat, i as nat),
            npow(b as nat, e as nat) <= u64::MAX,
        decreases e - i,
    {
        proof {
            lemma_npow_mono_exp(b as nat, (i + 1) as nat, e as nat);
        }
        r = b * r;
        i = i + 1;
    }
    r
}

/// The binomial coefficient `binomial(n, k)` for `n < 64`, by Pascal's triangle.
fn binom_coeff(n: u32, k: u32) -> (r: u64)
    requires
        n < 64,
        k <= n,
    ensures
        r == binomial(n as nat, k as nat),
{
    // row[j] == binomial(i, j) for j <= k
    let mut row: Vec<u64> = Vec::new();
    row.push(1);
    let mut j: u32 = 1;
    while j <= k
        invariant
            1 <= j <= k + 1,
            k <= n < 64,
            row@.len() == j,
            row@[0] == 1,
            forall|t: int| 1 <= t < j ==> row@[t] == 0,
        decreases k + 1 - j,
    {
        row.push(0);
        j = j + 1;
    }
    proof {
        assert forall|t: int| 0 <= t <= k implies row@[t] == binomial(0, t as nat) by {}
    }
    let mut i: u32 = 0;
    while i < n
        invariant
            i <= n < 64,
            k <= n,
            row@.len() == k + 1,
            forall|t: int| 0 <= t <= k ==> row@[t] == binomial(i as nat, t as nat),
        decreases n - i,
    {
        // update from the right so that row[t - 1] still holds the old value
        let mut t: usize = k as usize;
        while t > 0
            invariant
                t <= k,
                i < n < 64,
                k <= n,
                row@.len() == k + 1,
                forall|s: int| 0 <= s <= t ==> row@[s] == binomial(i as nat, s as nat),
                forall|s: int| t < s <= k ==> row@[s] == binomial((i + 1) as nat, s as nat),
            decreases t,
        {
            proof {
                assert(binomial((i + 1) as nat, t as nat) == binomial(i as nat, (t - 1) as nat) + binomial(
                    i as nat,
                    t as nat,
                ));
                lemma_choose_bounded((i + 1) as nat, t as nat);
                lemma_npow_mono_exp(2, (i + 1) as nat, 63);
                lemma_two_pow_63();
            }
            let v = row[t - 1] + row[t];
            row.set(t, v);
            t = t - 1;
        }
        proof {
            assert(binomial((i + 1) as nat, 0) == 1);
        }
        i = i + 1;
    }
    row[k as usize]
}

/// Weight of the outcomes of `n` trials with probability `p` with exactly `k` successes,
/// over the weight `p.total^n` of all outcomes.
pub fn binom_pmf(n: u32, k: u32, p: Chance) -> (r: Chance)
    requires
        p.hits <= p.total,
        n < 64,
        npow(p.total as nat, n as nat) <= u64::MAX,
    ensures
        r.total == npow(p.total as nat, n as nat),
        r.hits == exactly(n as nat, k as nat, p.hits as nat, (p.total - p.hits) as nat),
{
    let total = pow_u64(p.total, n);
    if k > n {
        return Chance { hits: 0, total };
    }
    let h = p.hits;
    let m = p.total - p.hits;
    let ghost gh = h as nat;
    let ghost gm = m as nat;
    proof {
        lemma_at_least_bounded(n as nat, k as nat, gh, gm);
        assert(gh + gm == p.total);
    }
    if h == 0 && k > 0 {
        proof {
            assert(npow(0, k as nat) == 0 * npow(0, (k - 1) as nat));
            assert(binomial(n as nat, k as nat) * 0 * npow(gm, (n - k) as nat) == 0) by (nonlinear_arith);
        }
        return Chance { hits: 0, total };
    }
    if m == 0 && k < n {
        proof {
            assert(npow(0, (n - k) as nat) == 0 * npow(0, (n - k - 1) as nat));
            assert(binomial(n as nat, k as nat) * npow(gh, k as nat) * 0 == 0) by (nonlinear_arith);
        }
        return Chance { hits: 0, total };
    }
    let c = binom_coeff(n, k);
    proof {
        // every factor is at least one, so each partial product is bounded by the whole
        let pc = binomial(n as nat, k as nat);
        let ph = npow(gh, k as nat);
        let pm = npow(gm, (n - k) as nat);
        if k > 0 {
            lemma_npow_positive(gh, k as nat);
        } else {
            assert(ph == 1);
        }
        if k < n {
            lemma_npow_positive(gm, (n - k) as nat);
        } else {
            assert(pm == 1);
        }
        lemma_choose_positive(n as nat, k as nat);
        lemma_npow_mono_base(gh, gh + gm, k as nat);
        lemma_npow_mono_base(gm, gh + gm, (n - k) as nat);
        assert(pc * ph <= pc * ph * pm) by (nonlinear_arith)
            requires
                pm >= 1,
        ;
        assert(ph <= pc * ph) by (nonlinear_arith)
            requires
                pc >= 1,
        ;
        assert(pm <= pc * ph * pm) by (nonlinear_arith)
            requires
                pc * ph >= 1,
        ;
        assert(pc * ph >= 1) by (nonlinear_arith)
            requires
                pc >= 1,
                ph >= 1,
        ;
        assert(pc <= pc * ph) by (nonlinear_arith)
            requires
                ph >= 1,
        ;
    }
    let hk = pow_u64(h, k);
    let mk = pow_u64(m, n - k);
    let hits = c * hk * mk;
    Chance { hits, total }
}

/// There is at least one way to choose `k` of `n` when `k <= n`.
pub proof fn lemma_choose_positive(n: nat, k: nat)
    requires
        k <= n,
    ensures
        binomial(n, k) >= 1,
    decreases n,
{
    if k > 0 && n > 0 {
        if k <= n - 1 {
            lemma_choose_positive((n - 1) as nat, k);
        }
        lemma_choose_positive((n - 1) as nat, (k - 1) as nat);
    }
}

/// P(X >= k) where X ~ Bin(n, p), as a weight over `p.total^n`.
pub fn binom_at_least(n: u32, p: Chance, k: i32) -> (r: Chance)
    requires
        p.hits <= p.total,
        n < 64,
        npow(p.total as nat, n as nat) <= u64::MAX,
    ensures
        r.total == npow(p.total as nat, n as nat),
        r.hits == at_least(
            n as nat,
            if k <= 0 {
                0
            } else {
                k as nat
            },
            p.hits as nat,
            (p.total - p.hits) as nat,
        ),
{
    let ghost a = p.hits as nat;
    let ghost b = (p.total - p.hits) as nat;
    let total = pow_u64(p.total, n);
    if k <= 0 {
        proof {
            lemma_binomial_theorem(n as nat, a, b);
            assert(a + b == p.total);
        }
        return Chance { hits: total, total };
    }
    let k = k as u32;
    if k > n {
        return Chance { hits: 0, total };
    }
    let mut sum: u64 = 0;
    let mut x: u32 = k;
    while x <= n
        invariant
            k <= x <= n + 1,
            n < 64,
            p.hits <= p.total,
            npow(p.total as nat, n as nat) <= u64::MAX,
            a == p.hits as nat,
            b == (p.total - p.hits) as nat,
            sum + at_least(n as nat, x as nat, a, b) == at_least(n as nat, k as nat, a, b),
        decreases n + 1 - x,
    {
        proof {
            lemma_at_least_unfold(n as nat, x as nat, a, b);
            lemma_at_least_bounded(n as nat, k as nat, a, b);
            assert(a + b == p.total);
        }
        let term = binom_pmf(n, x, p);
        sum = sum + term.hits;
        x = x + 1;
    }
    Chance { hits: sum, total }
}

/// Chance that a single die supports a claim on `face`.
pub fn p_match(face: u32) -> (r: Chance)
    ensures
        r.hits == face_weight(face),
        r.total == 6,
{
    if face == 1 {
        Chance { hits: 1, total: 6 }
    } else {
        Chance { hits: 2, total: 6 }
    }
}

/// Facts about powers of six that bound every probability we compute.
pub proof fn lemma_six_pow_fits(n: nat)
    requires
        n <= 24,
    ensures
        npow(6, n) <= npow(6, 24),
        npow(6, 24) <= u64::MAX,
        npow(6, 24) == 4738381338321616896,
        npow(6, n) >= 1,
{
    lemma_npow_mono_exp(6, n, 24);
    lemma_npow_positive(6, n);
    assert(npow(6, 24) == 4738381338321616896) by {
        reveal_with_fuel(npow, 25);
    }
}

/// Given `my_count` matching dice already visible to us, the chance that the
/// total count of `face` across all dice meets or exceeds `quantity`.
/// `opp_dice` is the number of hidden opponent dice.
pub fn p_bid_succeeds(quantity: u32, face: u32, my_count: u32, opp_dice: u32) -> (r: Chance)
    requires
        opp_dice <= 24,
    ensures
        r == spec_p_bid_succeeds(quantity, face, my_count as nat, opp_dice),
        r.total == npow(6, opp_dice as nat),
        r.hits <= r.total,
{
    proof {
        lemma_six_pow_fits(opp_dice as nat);
        let w = face_weight(face);
        lemma_at_least_bounded(opp_dice as nat, still_needed(quantity, my_count as nat), w, (6 - w) as nat);
    }
    let pm = p_match(face);
    let need: i32 = if my_count >= quantity {
        0
    } else if quantity - my_count > 64 {
        64
    } else {
        (quantity - my_count) as i32
    };
    proof {
        // asking for more successes than there are trials has no weight
        if my_count < quantity && quantity - my_count > 64 {
            let w = face_weight(face);
            assert(at_least(opp_dice as nat, 64, w, (6 - w) as nat) == 0);
            assert(at_least(opp_dice as nat, (quantity - my_count) as nat, w, (6 - w) as nat) == 0);
        }
    }
    binom_at_least(opp_dice, pm, need)
}

/// The chance of a bid as our own dice and the bid move: certain when our
/// dice already make it, nil when even every opponent die would not, never
/// higher for a larger quantity, never lower when we hold more of the face.
pub proof fn lemma_p_bid_succeeds_laws(quantity: u32, face: u32, mine: nat, opp_dice: u32)
    requires
        opp_dice <= 24,
    ensures
        ({
            let c = spec_p_bid_succeeds(quantity, face, mine, opp_dice);
            &&& c.total >= 1
            &&& mine >= quantity ==> c.hits == c.total
            &&& quantity > mine + opp_dice ==> c.hits == 0
            &&& c.hits <= c.total
        }),
        forall|q2: u32|
            quantity <= q2 ==> #[trigger] spec_p_bid_succeeds(q2, face, mine, opp_dice).hits <= spec_p_bid_succeeds(
                quantity,
                face,
                mine,
                opp_dice,
            ).hits,
        forall|m2: nat|
            mine <= m2 ==> spec_p_bid_succeeds(quantity, face, mine, opp_dice).hits
                <= #[trigger] spec_p_bid_succeeds(quantity, face, m2, opp_dice).hits,
{
    let n = opp_dice as nat;
    let w = face_weight(face);
    let v = (6 - w) as nat;
    lemma_six_pow_fits(n);
    assert(w + v == 6);
    lemma_binomial_theorem(n, w, v);
    lemma_at_least_bounded(n, still_needed(quantity, mine), w, v);
    assert forall|q2: u32| quantity <= q2 implies #[trigger] spec_p_bid_succeeds(q2, face, mine, opp_dice).hits
        <= spec_p_bid_succeeds(quantity, face, mine, opp_dice).hits by {
        lemma_at_least_antitone(n, still_needed(quantity, mine), still_needed(q2, mine), w, v);
        lemma_at_least_bounded(n, still_needed(q2, mine), w, v);
    }
    assert forall|m2: nat| mine <= m2 implies spec_p_bid_succeeds(quantity, face, mine, opp_dice).hits
        <= #[trigger] spec_p_bid_succeeds(quantity, face, m2, opp_dice).hits by {
        lemma_at_least_antitone(n, still_needed(quantity, m2), still_needed(quantity, mine), w, v);
        lemma_at_least_bounded(n, still_needed(quantity, m2), w, v);
    }
}

} // verus!
