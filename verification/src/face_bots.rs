//! The house bots that read the opponent's bids as a signal of its hand:
//! the face it bids is likely its strongest face, and how high it bids bounds
//! how many it holds. Chances are exact fractions.
use crate::bidding::{best_face, is_next_bid, last_bid, legal_next_bids, lists_next_bids, spec_best_face};
use crate::chance::{at_least, below_pct, exactly, face_weight, npow, Chance};
use crate::dice::{count_face, spec_count_face, spec_last_bid, Bid, Context, HistoryEntry, Move, Strategy};
use crate::face_model::{
    best_face_count_dist, hands_with, lemma_best_table_positive, lemma_hands_with_le, lemma_tail_ge, lemma_uncond_positive, table_total, tail,
    unconditional_count_dist,
};
use crate::liar_players::{bid_chance, chance_of, lemma_ctx_facts, lemma_position, lemma_sorted_order};
use crate::rng::gen_index;
use rand::rngs::StdRng;
use vstd::prelude::*;

verus! {

// ---------------------------------------------------------------- exact fractions

/// `a` is a smaller chance than `b`.
pub open spec fn ratio_lt(a: Chance, b: Chance) -> bool {
    a.hits * b.total < b.hits * a.total
}

/// `a` falls more than five points short of the chance that a challenge of a
/// bid of chance `p` wins: `a < 1 - p - 0.05`.
pub open spec fn short_of(a: Chance, p: Chance) -> bool {
    20 * (a.hits * p.total + p.hits * a.total) < 19 * a.total * p.total
}

/// A chance with a positive denominator of at most 2^63.
pub open spec fn proper(c: Chance) -> bool {
    0 < c.total <= 0x8000_0000_0000_0000 && c.hits <= c.total
}

pub(crate) proof fn lemma_ratio_trans(a: Chance, b: Chance, c: Chance)
    requires
        proper(a),
        proper(b),
        proper(c),
        !ratio_lt(b, a),
        ratio_lt(b, c),
    ensures
        ratio_lt(a, c),
{
    let (ah, at, bh, bt, ch, ct) = (a.hits as int, a.total as int, b.hits as int, b.total as int, c.hits as int, c.total as int);
    assert(ah * ct < ch * at) by (nonlinear_arith)
        requires
            ah * bt <= bh * at,
            bh * ct < ch * bt,
            at > 0,
            bt > 0,
            ct > 0,
            ah >= 0,
            bh >= 0,
            ch >= 0,
    ;
}

pub(crate) proof fn lemma_ratio_le_trans(a: Chance, b: Chance, c: Chance)
    requires
        proper(a),
        proper(b),
        proper(c),
        !ratio_lt(b, a),
        !ratio_lt(c, b),
    ensures
        !ratio_lt(c, a),
{
    let (ah, at, bh, bt, ch, ct) = (a.hits as int, a.total as int, b.hits as int, b.total as int, c.hits as int, c.total as int);
    assert(ah * ct <= ch * at) by (nonlinear_arith)
        requires
            ah * bt <= bh * at,
            bh * ct <= ch * bt,
            at > 0,
            bt > 0,
            ct > 0,
            ah >= 0,
            bh >= 0,
            ch >= 0,
    ;
}

pub(crate) proof fn lemma_products_fit(x: u64, y: u64)
    ensures
        (x as int) * (y as int) <= 0xffff_ffff_ffff_fffe_0000_0000_0000_0001,
{
    assert((x as int) * (y as int) <= 0xffff_ffff_ffff_ffff * 0xffff_ffff_ffff_ffff) by (nonlinear_arith)
        requires
            x <= 0xffff_ffff_ffff_ffff,
            y <= 0xffff_ffff_ffff_ffff,
    ;
}

pub(crate) fn is_ratio_lt(a: Chance, b: Chance) -> (r: bool)
    ensures
        r == ratio_lt(a, b),
{
    proof {
        lemma_products_fit(a.hits, b.total);
        lemma_products_fit(b.hits, a.total);
    }
    (a.hits as u128) * (b.total as u128) < (b.hits as u128) * (a.total as u128)
}

fn is_short_of(a: Chance, p: Chance) -> (r: bool)
    requires
        proper(a),
        proper(p),
    ensures
        r == short_of(a, p),
{
    proof {
        lemma_products_fit(a.hits, p.total);
        lemma_products_fit(p.hits, a.total);
        lemma_products_fit(a.total, p.total);
    }
    let x = (a.hits as u128) * (p.total as u128);
    let y = (p.hits as u128) * (a.total as u128);
    let z = (a.total as u128) * (p.total as u128);
    proof {
        assert(x <= 0x4000_0000_0000_0000_0000_0000_0000_0000) by (nonlinear_arith)
            requires
                x == a.hits * p.total,
                a.hits <= 0x8000_0000_0000_0000,
                p.total <= 0x8000_0000_0000_0000,
        ;
        assert(y <= 0x4000_0000_0000_0000_0000_0000_0000_0000) by (nonlinear_arith)
            requires
                y == p.hits * a.total,
                p.hits <= 0x8000_0000_0000_0000,
                a.total <= 0x8000_0000_0000_0000,
        ;
        assert(z <= 0x4000_0000_0000_0000_0000_0000_0000_0000) by (nonlinear_arith)
            requires
                z == a.total * p.total,
                a.total <= 0x8000_0000_0000_0000,
                p.total <= 0x8000_0000_0000_0000,
        ;
    }
    proof {
        assert(19 * a.total * p.total == 19 * z) by (nonlinear_arith)
            requires
                z == a.total * p.total,
        ;
    }
    // 20 * (x + y) < 19 * z exactly when z < 20 * (z - x - y)
    if x + y > z {
        false
    } else {
        let d = z - (x + y);
        proof {
            assert((z / 20 < d) == (20 * (x + y) < 19 * z)) by (nonlinear_arith)
                requires
                    d == z - x - y,
                    d >= 0,
                    z >= 0,
            ;
        }
        z / 20 < d
    }
}

/// Index of the first entry of greatest chance.
pub(crate) fn first_best_index(ch: &Vec<Chance>) -> (r: usize)
    requires
        ch@.len() > 0,
        forall|i: int| 0 <= i < ch@.len() ==> proper(#[trigger] ch@[i]),
    ensures
        r < ch@.len(),
        forall|j: int| 0 <= j < ch@.len() ==> !ratio_lt(ch@[r as int], #[trigger] ch@[j]),
        forall|j: int| 0 <= j < r ==> ratio_lt(#[trigger] ch@[j], ch@[r as int]),
{
    let mut best: usize = 0;
    let mut i: usize = 1;
    while i < ch.len()
        invariant
            1 <= i <= ch@.len(),
            best < i,
            forall|j: int| 0 <= j < ch@.len() ==> proper(#[trigger] ch@[j]),
            forall|j: int| 0 <= j < i ==> !ratio_lt(ch@[best as int], #[trigger] ch@[j]),
            forall|j: int| 0 <= j < best ==> ratio_lt(#[trigger] ch@[j], ch@[best as int]),
        decreases ch@.len() - i,
    {
        if is_ratio_lt(ch[best], ch[i]) {
            proof {
                assert forall|j: int| 0 <= j < i + 1 implies !ratio_lt(ch@[i as int], #[trigger] ch@[j]) by {
                    if j < i {
                        lemma_ratio_trans(ch@[j], ch@[best as int], ch@[i as int]);
                    }
                }
                assert forall|j: int| 0 <= j < i implies ratio_lt(#[trigger] ch@[j], ch@[i as int]) by {
                    lemma_ratio_trans(ch@[j], ch@[best as int], ch@[i as int]);
                }
            }
            best = i;
        }
        i = i + 1;
    }
    best
}

/// `b` is the least next bid whose chance under `f` is greatest.
pub open spec fn least_best_by(f: spec_fn(Bid) -> Chance, prev: Option<Bid>, b: Bid) -> bool {
    &&& is_next_bid(prev, b)
    &&& forall|c: Bid| is_next_bid(prev, c) ==> !ratio_lt(f(b), f(c))
    &&& forall|c: Bid| is_next_bid(prev, c) && b.spec_beats(c) ==> ratio_lt(f(c), f(b))
}

/// From the chances of a list of all next bids, the least bid of greatest chance.
pub(crate) proof fn lemma_first_best_is_least_best(
    f: spec_fn(Bid) -> Chance,
    prev: Option<Bid>,
    bids: Seq<Bid>,
    ch: Seq<Chance>,
    r: int,
)
    requires
        lists_next_bids(prev, bids),
        ch.len() == bids.len(),
        forall|i: int| 0 <= i < bids.len() ==> ch[i] == f(#[trigger] bids[i]),
        0 <= r < ch.len(),
        forall|j: int| 0 <= j < ch.len() ==> !ratio_lt(ch[r], #[trigger] ch[j]),
        forall|j: int| 0 <= j < r ==> ratio_lt(#[trigger] ch[j], ch[r]),
    ensures
        least_best_by(f, prev, bids[r]),
{
    let b = bids[r];
    assert(ch[r] == f(bids[r]));
    assert forall|c: Bid| is_next_bid(prev, c) implies !ratio_lt(f(b), f(c)) by {
        let j = lemma_position(prev, bids, c);
        assert(ch[j] == f(bids[j]));
        assert(!ratio_lt(ch[r], ch[j]));
    }
    assert forall|c: Bid| is_next_bid(prev, c) && b.spec_beats(c) implies ratio_lt(f(c), f(b)) by {
        let j = lemma_position(prev, bids, c);
        lemma_sorted_order(prev, bids, r, j);
        assert(ch[j] == f(bids[j]));
        assert(ratio_lt(ch[j], ch[r]));
    }
}

// ---------------------------------------------------------------- the tables

/// Counts of the face the opponent bid as its strongest face, over all hands.
pub open spec fn bf_table(face: u32) -> Seq<u64> {
    Seq::new(6, |k: int| hands_with(7776, face, face, k as nat) as u64)
}

/// Weights of counts of a face among five dice with no signal, over 6^5.
pub open spec fn uc_table(face: u32) -> Seq<u64> {
    Seq::new(6, |k: int| exactly(5, k as nat, face_weight(face), (6 - face_weight(face)) as nat) as u64)
}

/// Tables of the two count distributions for each face 1..=6 (index 0 unused).
pub struct FaceTables {
    bestface_dist: Vec<Vec<u64>>,
    uncond_dist: Vec<Vec<u64>>,
}

impl FaceTables {
    #[verifier::type_invariant]
    spec fn tables_hold(self) -> bool {
        &&& self.bestface_dist@.len() == 7
        &&& self.uncond_dist@.len() == 7
        &&& forall|f: int| 1 <= f <= 6 ==> (#[trigger] self.bestface_dist@[f])@ == bf_table(f as u32)
        &&& forall|f: int| 1 <= f <= 6 ==> (#[trigger] self.uncond_dist@[f])@ == uc_table(f as u32)
    }

    /// The best-face counts held for `face`.
    pub closed spec fn best_counts(self, face: int) -> Seq<u64> {
        self.bestface_dist@[face]@
    }

    /// The no-signal weights held for `face`.
    pub closed spec fn uncond_counts(self, face: int) -> Seq<u64> {
        self.uncond_dist@[face]@
    }

    /// Counts both tables for every face.
    pub fn new() -> (r: Self)
        ensures
            forall|f: int| 1 <= f <= 6 ==> #[trigger] r.best_counts(f) == bf_table(f as u32),
            forall|f: int| 1 <= f <= 6 ==> #[trigger] r.uncond_counts(f) == uc_table(f as u32),
    {
        let mut bf: Vec<Vec<u64>> = Vec::new();
        let mut uc: Vec<Vec<u64>> = Vec::new();
        bf.push(Vec::new());
        uc.push(Vec::new());
        let mut f: u32 = 1;
        while f <= 6
            invariant
                1 <= f <= 7,
                bf@.len() == f,
                uc@.len() == f,
                forall|g: int| 1 <= g < f ==> (#[trigger] bf@[g])@ == bf_table(g as u32),
                forall|g: int| 1 <= g < f ==> (#[trigger] uc@[g])@ == uc_table(g as u32),
            decreases 7 - f,
        {
            let b = best_face_count_dist(f);
            let u = unconditional_count_dist(f);
            proof {
                assert(b@ =~= bf_table(f));
                assert(u@ =~= uc_table(f));
            }
            bf.push(b);
            uc.push(u);
            f = f + 1;
        }
        FaceTables { bestface_dist: bf, uncond_dist: uc }
    }

    /// The best-face counts for `face`.
    pub fn best(&self, face: u32) -> (r: &Vec<u64>)
        requires
            1 <= face <= 6,
        ensures
            r@ == bf_table(face),
    {
        proof {
            use_type_invariant(self);
        }
        &self.bestface_dist[face as usize]
    }

    /// The no-signal weights for `face`.
    pub fn uncond(&self, face: u32) -> (r: &Vec<u64>)
        requires
            1 <= face <= 6,
        ensures
            r@ == uc_table(face),
    {
        proof {
            use_type_invariant(self);
        }
        &self.uncond_dist[face as usize]
    }
}

// ---------------------------------------------------------------- the blended chance

proof fn lemma_tail_bounds(t: Seq<u64>, k: int, cap: nat)
    requires
        0 <= k <= 6,
        t.len() == 6,
        forall|j: int| 0 <= j < 6 ==> t[j] <= cap,
    ensures
        tail(t, k) <= tail(t, 0),
        tail(t, k) <= (6 - k) * cap,
    decreases 6 - k,
{
    if k < 6 {
        lemma_tail_bounds(t, k + 1, cap);
        if k > 0 {
            lemma_tail_prefix(t, k);
        }
        assert((6 - k) * cap == cap + (6 - (k + 1)) * cap) by (nonlinear_arith);
    }
}

proof fn lemma_tail_prefix(t: Seq<u64>, k: int)
    requires
        0 < k <= 6,
    ensures
        tail(t, k) <= tail(t, 0),
    decreases k,
{
    if k > 1 {
        lemma_tail_prefix(t, k - 1);
    }
}

/// No entry of an unconditional table exceeds the 6^5 hands.
pub proof fn lemma_uc_entries(face: u32, k: int)
    requires
        0 <= k < 6,
    ensures
        uc_table(face)[k] <= 7776,
{
    let w = face_weight(face);
    crate::chance::lemma_at_least_bounded(5, k as nat, w, (6 - w) as nat);
    assert(npow(6, 5) == 7776) by {
        reveal_with_fuel(npow, 6);
    }
}

/// The no-signal weights of `k..=5` dice are the binomial tail, and all six sum to 6^5.
proof fn lemma_uc_tail(face: u32, k: int)
    requires
        0 <= k <= 6,
    ensures
        tail(uc_table(face), k) == at_least(5, k as nat, face_weight(face), (6 - face_weight(face)) as nat),
    decreases 6 - k,
{
    let w = face_weight(face);
    if k < 6 {
        lemma_uc_tail(face, k + 1);
        crate::chance::lemma_at_least_bounded(5, k as nat, w, (6 - w) as nat);
        assert(npow(6, 5) == 7776) by {
            reveal_with_fuel(npow, 6);
        }
        assert(uc_table(face)[k] == exactly(5, k as nat, w, (6 - w) as nat));
    } else {
        assert(at_least(5, 6, w, (6 - w) as nat) == 0);
    }
}

proof fn lemma_uc_total(face: u32)
    ensures
        table_total(uc_table(face)) == 7776,
{
    let w = face_weight(face);
    lemma_uc_tail(face, 0);
    crate::chance::lemma_binomial_theorem(5, w, (6 - w) as nat);
    assert(npow(6, 5) == 7776) by {
        reveal_with_fuel(npow, 6);
    }
}

/// Chance that the opponent holds at least `need` of a face when it bid the
/// face with signal weight `wn / wd`: that weight on the best-face counts
/// `bf`, the rest on the no-signal counts `uc` (over 6^5).
pub open spec fn mixture_chance(need: int, wn: nat, wd: nat, bf: Seq<u64>, uc: Seq<u64>) -> Chance {
    if need <= 0 {
        Chance { hits: 1, total: 1 }
    } else {
        let n = if need > 6 {
            6
        } else {
            need
        };
        let t = table_total(bf);
        Chance {
            hits: (wn * tail(bf, n) * 7776 + (wd - wn) * tail(uc, n) * t) as u64,
            total: (wd * t * 7776) as u64,
        }
    }
}

fn tail_of(t: &Vec<u64>, k: usize, Ghost(cap): Ghost<nat>) -> (r: u64)
    requires
        k <= 6,
        t@.len() == 6,
        cap <= 0x10_0000_0000,
        forall|j: int| 0 <= j < 6 ==> t@[j] <= cap,
    ensures
        r == tail(t@, k as int),
        r <= (6 - k) * cap,
{
    let mut s: u64 = 0;
    let mut j: usize = 6;
    while j > k
        invariant
            k <= j <= 6,
            t@.len() == 6,
            cap <= 0x10_0000_0000,
            forall|i: int| 0 <= i < 6 ==> t@[i] <= cap,
            s == tail(t@, j as int),
            s <= (6 - j) * cap,
        decreases j - k,
    {
        j = j - 1;
        proof {
            assert((6 - j) * cap == cap + (6 - (j + 1)) * cap) by (nonlinear_arith);
            assert((6 - (j + 1)) * cap <= 6 * 0x10_0000_0000) by (nonlinear_arith)
                requires
                    cap <= 0x10_0000_0000,
                    j < 6,
            ;
        }
        s = s + t[j];
    }
    s
}

/// The chance of a bid on `face` for `quantity` when we hold `my_count` of it,
/// with signal weight `wn / wd` on the opponent having bid its strongest face.
pub fn p_bid_succeeds_mixture(
    quantity: u32,
    face: u32,
    my_count: u32,
    wn: u64,
    wd: u64,
    bf: &Vec<u64>,
    uc: &Vec<u64>,
) -> (r: Chance)
    requires
        1 <= face <= 6,
        bf@ == bf_table(face),
        uc@ == uc_table(face),
        wn <= wd <= 10,
        wd >= 1,
    ensures
        r == mixture_chance(quantity - my_count, wn as nat, wd as nat, bf@, uc@),
        proper(r),
{
    if quantity <= my_count {
        return Chance { hits: 1, total: 1 };
    }
    let need = quantity - my_count;
    let n: usize = if need > 6 {
        6
    } else {
        need as usize
    };
    proof {
        assert forall|j: int| 0 <= j < 6 implies bf@[j] <= 7776 && bf@[j] == hands_with(7776, face, face, j as nat) by {
            lemma_hands_with_le(7776, face, face, j as nat);
        }
        assert forall|j: int| 0 <= j < 6 implies uc@[j] <= 7776 by {
            lemma_uc_entries(face, j);
        }
        lemma_best_table_positive(bf@, face);
        lemma_tail_bounds(bf@, n as int, 7776);
        lemma_tail_bounds(uc@, n as int, 7776);
        lemma_uc_total(face);
    }
    let t = tail_of(bf, 0, Ghost(7776));
    let tb = tail_of(bf, n, Ghost(7776));
    let tu = tail_of(uc, n, Ghost(7776));
    proof {
        assert((6 - n) * 7776 <= 46656) by (nonlinear_arith)
            requires
                n <= 6,
        ;
        assert(6 * 7776 == 46656);
        assert(tu <= 46656);
        assert((wd - wn) * tu <= 10 * 46656) by (nonlinear_arith)
            requires
                wd - wn <= 10,
                tu <= 46656,
        ;
        assert(wn * tb * 7776 <= 10 * 46656 * 7776) by (nonlinear_arith)
            requires
                wn <= 10,
                tb <= 46656,
        ;
        assert((wd - wn) * tu * t <= 10 * 46656 * 46656) by (nonlinear_arith)
            requires
                wd - wn <= 10,
                tu <= 46656,
                t <= 46656,
        ;
        assert(wd * t * 7776 <= 10 * 46656 * 7776) by (nonlinear_arith)
            requires
                wd <= 10,
                t <= 46656,
        ;
        assert(wn * tb * 7776 + (wd - wn) * tu * t <= wd * t * 7776) by (nonlinear_arith)
            requires
                tb <= t,
                tu <= 7776,
                wn <= wd,
        ;
        assert(wd * t * 7776 >= 1) by (nonlinear_arith)
            requires
                wd >= 1,
                t >= 1,
        ;
    }
    Chance { hits: wn * tb * 7776 + (wd - wn) * tu * t, total: wd * t * 7776 }
}

// ---------------------------------------------------------------- the face signal

/// The opponent's first bid equal to `b` stands at entry `j`.
pub open spec fn first_opp_bid_at(h: Seq<HistoryEntry>, me: u32, b: Bid, j: int) -> bool {
    &&& 0 <= j < h.len()
    &&& h[j].player_id != me && h[j].mv == Move::Bid(b)
    &&& forall|i: int| 0 <= i < j ==> !(h[i].player_id != me && h[i].mv == Move::Bid(b))
}

/// How much the opponent's bid `b` says that `b`'s face is its strongest, as
/// a weight `(numerator, denominator)`: nothing when it never bid `b`; 3/10
/// when its first `b` followed a bid on the same face (it was only raising);
/// 3/4 when it chose the face freely.
pub open spec fn face_signal(h: Seq<HistoryEntry>, me: u32, b: Bid) -> (nat, nat) {
    if exists|j: int| first_opp_bid_at(h, me, b, j) {
        let j = choose|j: int| first_opp_bid_at(h, me, b, j);
        match spec_last_bid(h.take(j)) {
            Some(pb) => if pb.face == b.face {
                (3, 10)
            } else {
                (3, 4)
            },
            None => (3, 4),
        }
    } else {
        (0, 1)
    }
}

/// The signal weight of the opponent's bid `b`.
pub fn w_best_for_bid(ctx: &Context, b: Bid) -> (r: (u64, u64))
    ensures
        r.0 as nat == face_signal(ctx.history@, ctx.my_id, b).0,
        r.1 as nat == face_signal(ctx.history@, ctx.my_id, b).1,
{
    let h = ctx.history;
    let mut prev_face: Option<u32> = None;
    let mut i: usize = 0;
    while i < h.len()
        invariant
            i <= h@.len(),
            h@ == ctx.history@,
            forall|j: int| 0 <= j < i ==> !(h@[j].player_id != ctx.my_id && h@[j].mv == Move::Bid(b)),
            prev_face == match spec_last_bid(h@.take(i as int)) {
                Some(pb) => Some(pb.face),
                None => None::<u32>,
            },
        decreases h@.len() - i,
    {
        proof {
            assert(h@.take(i + 1).drop_last() =~= h@.take(i as int));
        }
        match h[i].mv {
            Move::Bid(hb) => {
                if h[i].player_id != ctx.my_id && hb.quantity == b.quantity && hb.face == b.face {
                    proof {
                        assert(first_opp_bid_at(h@, ctx.my_id, b, i as int));
                        let j = choose|j: int| first_opp_bid_at(h@, ctx.my_id, b, j);
                        if j < i {
                            assert(h@[j].player_id != ctx.my_id && h@[j].mv == Move::Bid(b));
                        }
                        if j > i {
                            assert(!(h@[i as int].player_id != ctx.my_id && h@[i as int].mv == Move::Bid(b)));
                        }
                    }
                    return match prev_face {
                        Some(f) => if f == b.face {
                            (3, 10)
                        } else {
                            (3, 4)
                        },
                        None => (3, 4),
                    };
                }
                prev_face = Some(hb.face);
            },
            Move::Challenge => {},
        }
        i = i + 1;
    }
    proof {
        if exists|j: int| first_opp_bid_at(h@, ctx.my_id, b, j) {
            let j = choose|j: int| first_opp_bid_at(h@, ctx.my_id, b, j);
            assert(!(h@[j].player_id != ctx.my_id && h@[j].mv == Move::Bid(b)));
        }
    }
    (0, 1)
}

// ---------------------------------------------------------------- the posterior over the opponent's count

/// The opponent has bid on `face`.
pub open spec fn opp_bid_on(h: Seq<HistoryEntry>, me: u32, face: u32) -> bool {
    exists|j: int| 0 <= j < h.len() && h[j].player_id != me && (h[j].mv matches Move::Bid(b) && b.face == face)
}

/// The highest quantity the opponent has bid on `face` (0 when none).
pub open spec fn max_opp_q(h: Seq<HistoryEntry>, me: u32, face: u32) -> nat
    decreases h.len(),
{
    if h.len() == 0 {
        0
    } else {
        let m = max_opp_q(h.drop_last(), me, face);
        match h.last().mv {
            Move::Bid(b) => if h.last().player_id != me && b.face == face && b.quantity > m {
                b.quantity as nat
            } else {
                m
            },
            Move::Challenge => m,
        }
    }
}

/// How many of `face` the opponent's highest bid on it implies it holds, if
/// it counted on our expected share (5/3 dice, or 5/6 for ones): the bid
/// less one, or the bid itself for ones, clamped to 0..=6; 0 without a bid.
pub open spec fn implied_floor(h: Seq<HistoryEntry>, me: u32, face: u32) -> int {
    if opp_bid_on(h, me, face) {
        let q = max_opp_q(h, me, face) as int;
        let lb = if face == 1 {
            q
        } else {
            q - 1
        };
        if lb < 0 {
            0
        } else if lb > 6 {
            6
        } else {
            lb
        }
    } else {
        0
    }
}

/// Prior weight of the opponent holding `k` of `face`: 3/4 on the best-face
/// counts and 1/4 on the no-signal counts when it has bid the face, else the
/// no-signal counts (all over a common denominator).
pub open spec fn prior_weight(h: Seq<HistoryEntry>, me: u32, face: u32, k: int) -> nat {
    if opp_bid_on(h, me, face) {
        (3 * bf_table(face)[k] * 7776 + uc_table(face)[k] * table_total(bf_table(face))) as nat
    } else {
        uc_table(face)[k] as nat
    }
}

/// Posterior weights: counts below the implied floor keep `tn / td` of their
/// prior weight (a bluff stays possible).
pub open spec fn posterior_weights(h: Seq<HistoryEntry>, me: u32, face: u32, tn: nat, td: nat) -> Seq<u64> {
    let lb = implied_floor(h, me, face);
    Seq::new(
        6,
        |k: int|
            (if lb > 0 && k < lb {
                prior_weight(h, me, face, k) * tn
            } else if lb > 0 {
                prior_weight(h, me, face, k) * td
            } else {
                prior_weight(h, me, face, k)
            }) as u64,
    )
}

/// Chance that the opponent holds at least `need` of `face` under the posterior.
pub open spec fn posterior_chance(h: Seq<HistoryEntry>, me: u32, face: u32, need: int, tn: nat, td: nat) -> Chance {
    if need <= 0 {
        Chance { hits: 1, total: 1 }
    } else {
        let w = posterior_weights(h, me, face, tn, td);
        let n = if need > 6 {
            6
        } else {
            need
        };
        Chance { hits: tail(w, n) as u64, total: table_total(w) as u64 }
    }
}

fn opp_face_summary(ctx: &Context, face: u32) -> (r: (bool, u32))
    ensures
        r.0 == opp_bid_on(ctx.history@, ctx.my_id, face),
        r.1 == max_opp_q(ctx.history@, ctx.my_id, face),
{
    let h = ctx.history;
    let mut found = false;
    let mut q: u32 = 0;
    let mut i: usize = 0;
    while i < h.len()
        invariant
            i <= h@.len(),
            h@ == ctx.history@,
            found == opp_bid_on(h@.take(i as int), ctx.my_id, face),
            q == max_opp_q(h@.take(i as int), ctx.my_id, face),
        decreases h@.len() - i,
    {
        let ghost before = h@.take(i as int);
        proof {
            assert(h@.take(i + 1).drop_last() =~= before);
        }
        if h[i].player_id != ctx.my_id {
            if let Move::Bid(b) = h[i].mv {
                if b.face == face {
                    proof {
                        assert(h@.take(i + 1)[i as int] == h@[i as int]);
                    }
                    found = true;
                    if b.quantity > q {
                        q = b.quantity;
                    }
                }
            }
        }
        proof {
            let after = h@.take(i + 1);
            if opp_bid_on(after, ctx.my_id, face) && !opp_bid_on(before, ctx.my_id, face) {
                let j = choose|j: int|
                    0 <= j < after.len() && after[j].player_id != ctx.my_id && (after[j].mv matches Move::Bid(
                        b,
                    ) && b.face == face);
                if j < i {
                    assert(before[j] == after[j]);
                }
            }
            if opp_bid_on(before, ctx.my_id, face) {
                let j = choose|j: int|
                    0 <= j < before.len() && before[j].player_id != ctx.my_id && (before[j].mv matches Move::Bid(
                        b,
                    ) && b.face == face);
                assert(after[j] == before[j]);
            }
        }
        i = i + 1;
    }
    proof {
        assert(h@.take(h@.len() as int) =~= h@);
    }
    (found, q)
}

/// The posterior weights of the opponent's count of `face`, with counts
/// below the implied floor kept at `tn / td`.
pub fn posterior(ctx: &Context, face: u32, tables: &FaceTables, tn: u64, td: u64) -> (r: Vec<u64>)
    requires
        1 <= face <= 6,
        1 <= tn <= td <= 20,
    ensures
        r@ == posterior_weights(ctx.history@, ctx.my_id, face, tn as nat, td as nat),
        forall|k: int| 0 <= k < 6 ==> 1 <= #[trigger] r@[k] <= 0x10_0000_0000,
{
    let bf = tables.best(face);
    let uc = tables.uncond(face);
    let (seen, q) = opp_face_summary(ctx, face);
    proof {
        assert forall|j: int| 0 <= j < 6 implies bf@[j] <= 7776 && bf@[j] == hands_with(7776, face, face, j as nat) by {
            lemma_hands_with_le(7776, face, face, j as nat);
        }
        assert forall|j: int| 0 <= j < 6 implies uc@[j] <= 7776 && uc@[j] == exactly(
            5,
            j as nat,
            face_weight(face),
            (6 - face_weight(face)) as nat,
        ) by {
            lemma_uc_entries(face, j);
            let w = face_weight(face);
            crate::chance::lemma_at_least_bounded(5, j as nat, w, (6 - w) as nat);
            assert(npow(6, 5) == 7776) by {
                reveal_with_fuel(npow, 6);
            }
        }
        lemma_best_table_positive(bf@, face);
        lemma_uncond_positive(uc@, face);
        lemma_tail_bounds(bf@, 0, 7776);
        assert(6 * 7776 == 46656);
    }
    let t = tail_of(bf, 0, Ghost(7776));
    let lb: i64 = if seen {
        let l: i64 = if face == 1 {
            q as i64
        } else {
            q as i64 - 1
        };
        if l < 0 {
            0
        } else if l > 6 {
            6
        } else {
            l
        }
    } else {
        0
    };
    let mut out: Vec<u64> = Vec::new();
    let mut k: usize = 0;
    while k < 6
        invariant
            k <= 6,
            bf@ == bf_table(face),
            uc@ == uc_table(face),
            1 <= face <= 6,
            1 <= tn <= td <= 20,
            t == table_total(bf@),
            1 <= t <= 46656,
            seen == opp_bid_on(ctx.history@, ctx.my_id, face),
            lb == implied_floor(ctx.history@, ctx.my_id, face),
            forall|j: int| 0 <= j < 6 ==> bf@[j] <= 7776,
            forall|j: int| 0 <= j < 6 ==> 1 <= #[trigger] uc@[j] <= 7776,
            out@.len() == k,
            forall|j: int| 0 <= j < k ==> out@[j] == posterior_weights(ctx.history@, ctx.my_id, face, tn as nat, td as nat)[j],
            forall|j: int| 0 <= j < k ==> 1 <= #[trigger] out@[j] <= 0x10_0000_0000,
        decreases 6 - k,
    {
        let b = bf[k];
        let u = uc[k];
        proof {
            assert(3 * b * 7776 <= 3 * 7776 * 7776) by (nonlinear_arith)
                requires
                    b <= 7776,
            ;
            assert(u * t <= 7776 * 46656) by (nonlinear_arith)
                requires
                    u <= 7776,
                    t <= 46656,
            ;
            assert(u * t >= 1) by (nonlinear_arith)
                requires
                    u >= 1,
                    t >= 1,
            ;
        }
        let prior: u64 = if seen {
            3 * b * 7776 + u * t
        } else {
            u
        };
        proof {
            assert(prior * 20 <= 0x10_0000_0000) by (nonlinear_arith)
                requires
                    prior <= 3 * 7776 * 7776 + 7776 * 46656,
            ;
            assert(prior * tn <= prior * 20 && prior * td <= prior * 20 && prior * tn >= 1 && prior * td >= 1)
                by (nonlinear_arith)
                requires
                    1 <= tn <= 20,
                    1 <= td <= 20,
                    prior >= 1,
            ;
        }
        let w: u64 = if lb > 0 && (k as i64) < lb {
            prior * tn
        } else if lb > 0 {
            prior * td
        } else {
            prior
        };
        out.push(w);
        k = k + 1;
    }
    proof {
        assert(out@ =~= posterior_weights(ctx.history@, ctx.my_id, face, tn as nat, td as nat));
    }
    out
}

/// The chance that a bid on `face` for `q` holds when we hold `my_count`,
/// under the posterior of the opponent's count.
pub fn p_bid_succeeds_post(
    ctx: &Context,
    q: u32,
    face: u32,
    my_count: u32,
    tables: &FaceTables,
    tn: u64,
    td: u64,
) -> (r: Chance)
    requires
        1 <= face <= 6,
        1 <= tn <= td <= 20,
    ensures
        r == posterior_chance(ctx.history@, ctx.my_id, face, q - my_count, tn as nat, td as nat),
        proper(r),
{
    if q <= my_count {
        return Chance { hits: 1, total: 1 };
    }
    let need = q - my_count;
    let n: usize = if need > 6 {
        6
    } else {
        need as usize
    };
    let w = posterior(ctx, face, tables, tn, td);
    proof {
        lemma_tail_bounds(w@, n as int, 0x10_0000_0000);
        lemma_tail_bounds(w@, 0, 0x10_0000_0000);
        lemma_tail_ge(w@, 0, 0);
    }
    let hits = tail_of(&w, n, Ghost(0x10_0000_0000));
    let total = tail_of(&w, 0, Ghost(0x10_0000_0000));
    Chance { hits, total }
}

// ---------------------------------------------------------------- judging the last bid and the raises

/// A smaller chance falls short too.
proof fn lemma_short_mono(a: Chance, b: Chance, p: Chance)
    requires
        proper(a),
        proper(b),
        proper(p),
        !ratio_lt(b, a),
        short_of(b, p),
    ensures
        short_of(a, p),
{
    let (ah, at, bh, bt, ph, pt) = (a.hits as int, a.total as int, b.hits as int, b.total as int, p.hits as int, p.total as int);
    assert(20 * (ah * pt + ph * at) < 19 * at * pt) by (nonlinear_arith)
        requires
            ah * bt <= bh * at,
            20 * (bh * pt + ph * bt) < 19 * bt * pt,
            at > 0,
            bt > 0,
            pt > 0,
            ah >= 0,
            bh >= 0,
            ph >= 0,
    {
        assert(20 * bh * pt * at < (19 * pt - 20 * ph) * bt * at) by (nonlinear_arith)
            requires
                20 * (bh * pt + ph * bt) < 19 * bt * pt,
                at > 0,
        ;
        assert(20 * ah * pt * bt <= 20 * bh * pt * at) by (nonlinear_arith)
            requires
                ah * bt <= bh * at,
                pt > 0,
        ;
        assert(20 * ah * pt * bt < (19 * pt - 20 * ph) * at * bt);
        assert(20 * ah * pt < (19 * pt - 20 * ph) * at) by (nonlinear_arith)
            requires
                20 * ah * pt * bt < (19 * pt - 20 * ph) * at * bt,
                bt > 0,
        ;
    }
}

/// The decision of a bot that judges bids by the chances `f`: challenge when
/// the last bid (of chance `pp`) is judged `weak`; else the least raise of
/// greatest chance, unless there is none, or (with the `secondary` check)
/// even it falls short of challenging.
pub open spec fn judged_move(f: spec_fn(Bid) -> Chance, prev: Option<Bid>, pp: Chance, weak: bool, secondary: bool, r: Move) -> bool {
    &&& r is Challenge <==> (prev is Some && (weak || forall|c: Bid|
        is_next_bid(prev, c) ==> secondary && short_of(f(c), pp)))
    &&& r matches Move::Bid(b) ==> least_best_by(f, prev, b)
}

/// Ends a judged decision once the chances of the raises are known.
fn judge(
    bids: &Vec<Bid>,
    chances: &Vec<Chance>,
    pp: Option<Chance>,
    secondary: bool,
    Ghost(f): Ghost<spec_fn(Bid) -> Chance>,
    Ghost(prev): Ghost<Option<Bid>>,
) -> (r: Move)
    requires
        lists_next_bids(prev, bids@),
        chances@.len() == bids@.len(),
        forall|i: int| 0 <= i < bids@.len() ==> chances@[i] == f(#[trigger] bids@[i]),
        forall|i: int| 0 <= i < chances@.len() ==> proper(#[trigger] chances@[i]),
        pp is Some <==> prev is Some,
        pp matches Some(x) ==> proper(x),
        prev is None ==> bids@.len() > 0,
    ensures
        judged_move(f, prev, pp.unwrap_or(Chance { hits: 1, total: 1 }), false, secondary, r),
{
    if bids.len() == 0 {
        proof {
            assert forall|c: Bid| is_next_bid(prev, c) implies secondary && short_of(
                f(c),
                pp.unwrap_or(Chance { hits: 1, total: 1 }),
            ) by {
                lemma_position(prev, bids@, c);
            }
        }
        return Move::Challenge;
    }
    let i = first_best_index(chances);
    proof {
        lemma_first_best_is_least_best(f, prev, bids@, chances@, i as int);
    }
    let b = bids[i];
    match pp {
        Some(x) => {
            if secondary && is_short_of(chances[i], x) {
                proof {
                    assert forall|c: Bid| is_next_bid(prev, c) implies secondary && short_of(f(c), x) by {
                        let j = lemma_position(prev, bids@, c);
                        assert(chances@[j] == f(bids@[j]));
                        lemma_short_mono(chances@[j], chances@[i as int], x);
                    }
                }
                Move::Challenge
            } else {
                proof {
                    assert(is_next_bid(prev, bids@[i as int]));
                    if secondary {
                        assert(!short_of(f(bids@[i as int]), x));
                    }
                }
                Move::Bid(b)
            }
        },
        None => Move::Bid(b),
    }
}

// ---------------------------------------------------------------- the third house bot

/// The third house bot's chance of a raise `b`: on the last bid's face, the
/// blend weighted by how strongly that bid signalled the opponent's strongest
/// face; on another face, the plain binomial chance.
pub open spec fn v3_chance(dice: Seq<u32>, opp: u32, h: Seq<HistoryEntry>, me: u32, prev: Option<Bid>, b: Bid) -> Chance {
    match prev {
        Some(p) => if p.face == b.face {
            let s = face_signal(h, me, p);
            mixture_chance(
                b.quantity - spec_count_face(dice, b.face),
                s.0,
                s.1,
                bf_table(b.face),
                uc_table(b.face),
            )
        } else {
            chance_of(dice, opp, b)
        },
        None => chance_of(dice, opp, b),
    }
}

/// The third house bot's chance that the last bid `p` holds.
pub open spec fn v3_prev_chance(dice: Seq<u32>, h: Seq<HistoryEntry>, me: u32, p: Bid) -> Chance {
    let s = face_signal(h, me, p);
    mixture_chance(p.quantity - spec_count_face(dice, p.face), s.0, s.1, bf_table(p.face), uc_table(p.face))
}

fn signal_ok(ctx: &Context, b: Bid) -> (r: (u64, u64))
    ensures
        r.0 as nat == face_signal(ctx.history@, ctx.my_id, b).0,
        r.1 as nat == face_signal(ctx.history@, ctx.my_id, b).1,
        r.0 <= r.1 <= 10,
        r.1 >= 1,
{
    w_best_for_bid(ctx, b)
}

/// The third house bot's chance of the last bid (1 when there is none), at
/// the position of our dice `dice` and the history `h`, we being `me`.
pub open spec fn v3_pp_at(dice: Seq<u32>, h: Seq<HistoryEntry>, me: u32) -> Chance {
    match spec_last_bid(h) {
        Some(p) => v3_prev_chance(dice, h, me, p),
        None => Chance { hits: 1, total: 1 },
    }
}

pub open spec fn v3_pp(ctx: &Context) -> Chance {
    v3_pp_at(ctx.my_dice@, ctx.history@, ctx.my_id)
}

/// The third house bot's decision at a position (the opponent hiding `opp`
/// dice): judged by `v3_chance`, challenging a last bid below 40%, with the
/// secondary check.
pub open spec fn v3_decision_at(dice: Seq<u32>, opp: u32, h: Seq<HistoryEntry>, me: u32, r: Move) -> bool {
    let prev = spec_last_bid(h);
    judged_move(
        |b: Bid| v3_chance(dice, opp, h, me, prev, b),
        prev,
        v3_pp_at(dice, h, me),
        prev is Some && below_pct(v3_pp_at(dice, h, me), 40),
        true,
        r,
    )
}

pub open spec fn v3_decision(ctx: &Context, r: Move) -> bool {
    v3_decision_at(ctx.my_dice@, ctx.dice_per_player, ctx.history@, ctx.my_id, r)
}

/// Two moves that meet one judged decision are the same move.
pub proof fn lemma_judged_unique(
    f: spec_fn(Bid) -> Chance,
    prev: Option<Bid>,
    pp: Chance,
    weak: bool,
    secondary: bool,
    r1: Move,
    r2: Move,
)
    requires
        judged_move(f, prev, pp, weak, secondary, r1),
        judged_move(f, prev, pp, weak, secondary, r2),
    ensures
        r1 == r2,
{
    if let (Move::Bid(b1), Move::Bid(b2)) = (r1, r2) {
        if b1 != b2 {
            if b1.spec_beats(b2) {
                assert(ratio_lt(f(b2), f(b1)));
            } else {
                assert(b2.spec_beats(b1));
                assert(ratio_lt(f(b1), f(b2)));
            }
        }
    }
}

/// The third house bot challenges.
pub open spec fn v3_challenges(ctx: &Context) -> bool {
    let prev = spec_last_bid(ctx.history@);
    prev is Some && (below_pct(v3_pp(ctx), 40) || forall|c: Bid|
        is_next_bid(prev, c) ==> short_of(
            v3_chance(ctx.my_dice@, ctx.dice_per_player, ctx.history@, ctx.my_id, prev, c),
            v3_pp(ctx),
        ))
}

/// Reads the face of the opponent's bid as a sign that it holds many of it:
/// judges the last bid and raises on that face by the blended chance, and
/// challenges below 40%.
pub struct MyBotV3 {
    pub _rng: StdRng,
    pub tables: FaceTables,
}

impl MyBotV3 {
    /// The bot, drawing what it leaves to chance from `rng`.
    pub fn new(rng: StdRng) -> (r: Self)
        ensures
            r._rng == rng,
    {
        MyBotV3 { _rng: rng, tables: FaceTables::new() }
    }
}

proof fn lemma_binomial_proper(dice: Seq<u32>, opp: u32, b: Bid)
    requires
        opp <= 24,
        chance_of(dice, opp, b).hits <= chance_of(dice, opp, b).total,
        chance_of(dice, opp, b).total == npow(6, opp as nat),
    ensures
        proper(chance_of(dice, opp, b)),
{
    crate::chance::lemma_six_pow_fits(opp as nat);
}

/// The third bot's chances of a list of raises.
fn v3_chances(ctx: &Context, tables: &FaceTables, bids: &Vec<Bid>, Ghost(prev): Ghost<Option<Bid>>) -> (r: Vec<Chance>)
    requires
        ctx.well_formed(),
        prev == spec_last_bid(ctx.history@),
        lists_next_bids(prev, bids@),
    ensures
        r@.len() == bids@.len(),
        forall|j: int|
            0 <= j < bids@.len() ==> r@[j] == v3_chance(
                ctx.my_dice@,
                ctx.dice_per_player,
                ctx.history@,
                ctx.my_id,
                prev,
                #[trigger] bids@[j],
            ),
        forall|j: int| 0 <= j < r@.len() ==> proper(#[trigger] r@[j]),
{
    proof {
        lemma_ctx_facts(ctx);
    }
    let ghost dice = ctx.my_dice@;
    let ghost h = ctx.history@;
    let ghost f = |b: Bid| v3_chance(dice, ctx.dice_per_player, h, ctx.my_id, prev, b);
    let last = last_bid(ctx);
    let mut chances: Vec<Chance> = Vec::new();
    let mut i: usize = 0;
    while i < bids.len()
        invariant
            ctx.well_formed(),
            dice == ctx.my_dice@,
            h == ctx.history@,
            prev == spec_last_bid(h),
            last == prev,
            f == (|b: Bid| v3_chance(dice, ctx.dice_per_player, h, ctx.my_id, prev, b)),
            lists_next_bids(prev, bids@),
            i <= bids@.len(),
            chances@.len() == i,
            forall|j: int| 0 <= j < i ==> chances@[j] == f(#[trigger] bids@[j]),
            forall|j: int| 0 <= j < i ==> proper(#[trigger] chances@[j]),
        decreases bids@.len() - i,
    {
        let b = bids[i];
        proof {
            assert(is_next_bid(prev, bids@[i as int]));
        }
        let mine = count_face(ctx.my_dice, b.face);
        let c = match last {
            Some(p) => {
                if p.face == b.face {
                    let (wn, wd) = signal_ok(ctx, p);
                    p_bid_succeeds_mixture(
                        b.quantity,
                        b.face,
                        mine,
                        wn,
                        wd,
                        tables.best(b.face),
                        tables.uncond(b.face),
                    )
                } else {
                    let c = bid_chance(ctx, b);
                    proof {
                        lemma_binomial_proper(dice, ctx.dice_per_player, b);
                    }
                    c
                }
            },
            None => {
                let c = bid_chance(ctx, b);
                proof {
                    lemma_binomial_proper(dice, ctx.dice_per_player, b);
                }
                c
            },
        };
        chances.push(c);
        i = i + 1;
    }
    chances
}

/// The third bot's chance of the last bid, when there is one.
fn v3_last_chance(ctx: &Context, tables: &FaceTables) -> (r: Option<Chance>)
    requires
        ctx.well_formed(),
    ensures
        r is Some <==> spec_last_bid(ctx.history@) is Some,
        r matches Some(x) ==> x == v3_pp(ctx) && proper(x),
{
    proof {
        lemma_ctx_facts(ctx);
    }
    match last_bid(ctx) {
        Some(p) => {
            let mine = count_face(ctx.my_dice, p.face);
            let (wn, wd) = signal_ok(ctx, p);
            Some(
                p_bid_succeeds_mixture(
                    p.quantity,
                    p.face,
                    mine,
                    wn,
                    wd,
                    tables.best(p.face),
                    tables.uncond(p.face),
                ),
            )
        },
        None => None,
    }
}

impl Strategy for MyBotV3 {
    fn name(&self) -> (r: &str)
        ensures
            r@ == "mybot-v3"@,
    {
        "mybot-v3"
    }

    open spec fn may_pick(my_id: u32, my_dice: Seq<u32>, history: Seq<HistoryEntry>, dice_per_player: u32, r: Move) -> bool {
        v3_decision_at(my_dice, dice_per_player, history, my_id, r)
    }

    fn pick(&mut self, ctx: &Context) -> (r: Move)
        ensures
            v3_decision(ctx, r),
    {
        proof {
            lemma_ctx_facts(ctx);
        }
        let ghost dice = ctx.my_dice@;
        let ghost h = ctx.history@;
        let ghost f = |b: Bid| v3_chance(dice, ctx.dice_per_player, h, ctx.my_id, spec_last_bid(h), b);
        let prev = last_bid(ctx);
        let pp = v3_last_chance(ctx, &self.tables);
        if let Some(x) = pp {
            if x.below_percent(40) {
                return Move::Challenge;
            }
        }
        let bids = legal_next_bids(prev);
        proof {
            if prev is None {
                assert(bids@.contains(Bid { quantity: 1, face: 1 }));
            }
        }
        let chances = v3_chances(ctx, &self.tables, &bids, Ghost(prev));
        proof {
            assert forall|i: int| 0 <= i < bids@.len() implies chances@[i] == f(#[trigger] bids@[i]) by {
            }
        }
        judge(&bids, &chances, pp, true, Ghost(f), Ghost(prev))
    }
}

/// `b` is a next bid whose chance under `f` is greatest.
pub open spec fn best_by(f: spec_fn(Bid) -> Chance, prev: Option<Bid>, b: Bid) -> bool {
    &&& is_next_bid(prev, b)
    &&& forall|c: Bid| is_next_bid(prev, c) ==> !ratio_lt(f(b), f(c))
}

/// The third bot's decision with ties broken at random: it challenges exactly
/// when the third bot does, and otherwise makes some raise of greatest chance.
pub open spec fn v3_tiebreak_decision(ctx: &Context, r: Move) -> bool {
    let prev = spec_last_bid(ctx.history@);
    &&& r is Challenge <==> v3_challenges(ctx)
    &&& r matches Move::Bid(b) ==> best_by(
        |c: Bid| v3_chance(ctx.my_dice@, ctx.dice_per_player, ctx.history@, ctx.my_id, prev, c),
        prev,
        b,
    )
}

/// The third bot's rule, breaking ties between raises of greatest chance by
/// a uniform draw from `rng` instead of taking the least.
pub fn v3_pick_random_tiebreak(ctx: &Context, tables: &FaceTables, rng: &mut StdRng) -> (r: Move)
    requires
        ctx.well_formed(),
    ensures
        v3_tiebreak_decision(ctx, r),
{
    proof {
        lemma_ctx_facts(ctx);
    }
    let ghost dice = ctx.my_dice@;
    let ghost h = ctx.history@;
    let ghost f = |b: Bid| v3_chance(dice, ctx.dice_per_player, h, ctx.my_id, spec_last_bid(h), b);
    let prev = last_bid(ctx);
    let pp = v3_last_chance(ctx, tables);
    if let Some(x) = pp {
        if x.below_percent(40) {
            return Move::Challenge;
        }
    }
    let bids = legal_next_bids(prev);
    proof {
        if prev is None {
            assert(bids@.contains(Bid { quantity: 1, face: 1 }));
        }
    }
    let chances = v3_chances(ctx, tables, &bids, Ghost(prev));
    proof {
        assert forall|i: int| 0 <= i < bids@.len() implies chances@[i] == f(#[trigger] bids@[i]) by {
        }
    }
    if bids.len() == 0 {
        proof {
            assert forall|c: Bid| is_next_bid(prev, c) implies short_of(f(c), v3_pp(ctx)) by {
                lemma_position(prev, bids@, c);
            }
        }
        return Move::Challenge;
    }
    let i = first_best_index(&chances);
    if let Some(x) = pp {
        if is_short_of(chances[i], x) {
            proof {
                assert forall|c: Bid| is_next_bid(prev, c) implies short_of(f(c), x) by {
                    let j = lemma_position(prev, bids@, c);
                    assert(chances@[j] == f(bids@[j]));
                    lemma_short_mono(chances@[j], chances@[i as int], x);
                }
            }
            return Move::Challenge;
        }
    }
    proof {
        assert(is_next_bid(prev, bids@[i as int]));
        if let Some(x) = pp {
            assert(!short_of(f(bids@[i as int]), x));
        }
    }
    let mut tied: Vec<Bid> = Vec::new();
    let mut j: usize = 0;
    while j < bids.len()
        invariant
            j <= bids@.len(),
            i < bids@.len(),
            chances@.len() == bids@.len(),
            lists_next_bids(prev, bids@),
            forall|k: int| 0 <= k < bids@.len() ==> chances@[k] == f(#[trigger] bids@[k]),
            forall|k: int| 0 <= k < chances@.len() ==> proper(#[trigger] chances@[k]),
            forall|k: int| 0 <= k < chances@.len() ==> !ratio_lt(chances@[i as int], #[trigger] chances@[k]),
            forall|k: int| 0 <= k < tied@.len() ==> best_by(f, prev, #[trigger] tied@[k]),
            j > i ==> tied@.len() > 0,
        decreases bids@.len() - j,
    {
        if !is_ratio_lt(chances[j], chances[i]) {
            proof {
                assert forall|c: Bid| is_next_bid(prev, c) implies !ratio_lt(f(bids@[j as int]), f(c)) by {
                    let k = lemma_position(prev, bids@, c);
                    assert(chances@[k] == f(bids@[k]));
                    lemma_ratio_le_trans(chances@[k], chances@[i as int], chances@[j as int]);
                }
            }
            tied.push(bids[j]);
        }
        j = j + 1;
    }
    let k = gen_index(rng, tied.len());
    proof {
        assert(best_by(f, prev, tied@[k as int]));
    }
    Move::Bid(tied[k])
}

// ---------------------------------------------------------------- the posterior bots

/// Chance of bid `b` under the posterior of the opponent's count of its face.
pub open spec fn post_chance(dice: Seq<u32>, h: Seq<HistoryEntry>, me: u32, tn: nat, td: nat, b: Bid) -> Chance {
    posterior_chance(h, me, b.face, b.quantity - spec_count_face(dice, b.face), tn, td)
}

/// The posterior chances of a list of raises.
fn post_chances(
    ctx: &Context,
    bids: &Vec<Bid>,
    tables: &FaceTables,
    tn: u64,
    td: u64,
    Ghost(prev): Ghost<Option<Bid>>,
) -> (r: Vec<Chance>)
    requires
        ctx.well_formed(),
        lists_next_bids(prev, bids@),
        1 <= tn <= td <= 20,
    ensures
        r@.len() == bids@.len(),
        forall|i: int|
            0 <= i < bids@.len() ==> r@[i] == post_chance(
                ctx.my_dice@,
                ctx.history@,
                ctx.my_id,
                tn as nat,
                td as nat,
                #[trigger] bids@[i],
            ),
        forall|i: int| 0 <= i < r@.len() ==> proper(#[trigger] r@[i]),
{
    let mut chances: Vec<Chance> = Vec::new();
    let mut i: usize = 0;
    while i < bids.len()
        invariant
            ctx.well_formed(),
            lists_next_bids(prev, bids@),
            1 <= tn <= td <= 20,
            i <= bids@.len(),
            chances@.len() == i,
            forall|j: int|
                0 <= j < i ==> chances@[j] == post_chance(
                    ctx.my_dice@,
                    ctx.history@,
                    ctx.my_id,
                    tn as nat,
                    td as nat,
                    #[trigger] bids@[j],
                ),
            forall|j: int| 0 <= j < i ==> proper(#[trigger] chances@[j]),
        decreases bids@.len() - i,
    {
        let b = bids[i];
        proof {
            assert(is_next_bid(prev, bids@[i as int]));
        }
        let mine = count_face(ctx.my_dice, b.face);
        let c = p_bid_succeeds_post(ctx, b.quantity, b.face, mine, tables, tn, td);
        chances.push(c);
        i = i + 1;
    }
    chances
}

/// The posterior chance of the last bid.
fn prev_post_chance(ctx: &Context, p: Bid, tables: &FaceTables, tn: u64, td: u64) -> (r: Chance)
    requires
        ctx.well_formed(),
        spec_last_bid(ctx.history@) == Some(p),
        1 <= tn <= td <= 20,
    ensures
        r == post_chance(ctx.my_dice@, ctx.history@, ctx.my_id, tn as nat, td as nat, p),
        proper(r),
{
    proof {
        lemma_ctx_facts(ctx);
    }
    let mine = count_face(ctx.my_dice, p.face);
    p_bid_succeeds_post(ctx, p.quantity, p.face, mine, tables, tn, td)
}

/// The decision of a posterior bot on a raise list, given its threshold and
/// whether it makes the secondary check.
fn post_decision(ctx: &Context, tables: &FaceTables, tn: u64, td: u64, pct: u64, secondary: bool) -> (r: Move)
    requires
        ctx.well_formed(),
        1 <= tn <= td <= 20,
    ensures
        ({
            let dice = ctx.my_dice@;
            let h = ctx.history@;
            let prev = spec_last_bid(h);
            let pp = match prev {
                Some(p) => post_chance(dice, h, ctx.my_id, tn as nat, td as nat, p),
                None => Chance { hits: 1, total: 1 },
            };
            judged_move(
                |b: Bid| post_chance(dice, h, ctx.my_id, tn as nat, td as nat, b),
                prev,
                pp,
                prev is Some && below_pct(pp, pct as nat),
                secondary,
                r,
            )
        }),
{
    proof {
        lemma_ctx_facts(ctx);
    }
    let ghost dice = ctx.my_dice@;
    let ghost h = ctx.history@;
    let ghost f = |b: Bid| post_chance(dice, h, ctx.my_id, tn as nat, td as nat, b);
    let prev = last_bid(ctx);
    let pp: Option<Chance> = match prev {
        Some(p) => Some(prev_post_chance(ctx, p, tables, tn, td)),
        None => None,
    };
    if let Some(x) = pp {
        if x.below_percent(pct) {
            return Move::Challenge;
        }
    }
    let bids = legal_next_bids(prev);
    proof {
        if prev is None {
            assert(bids@.contains(Bid { quantity: 1, face: 1 }));
        }
    }
    let chances = post_chances(ctx, &bids, tables, tn, td, Ghost(prev));
    proof {
        assert forall|i: int| 0 <= i < bids@.len() implies chances@[i] == f(#[trigger] bids@[i]) by {
        }
    }
    judge(&bids, &chances, pp, secondary, Ghost(f), Ghost(prev))
}

/// Judges by the posterior of the opponent's count: the face-signal prior
/// cut to 15% below the count its highest bid implies; challenges below 45%.
pub struct MyBotV4 {
    pub _rng: StdRng,
    pub tables: FaceTables,
}

impl MyBotV4 {
    /// The bot, drawing what it leaves to chance from `rng`.
    pub fn new(rng: StdRng) -> (r: Self)
        ensures
            r._rng == rng,
    {
        MyBotV4 { _rng: rng, tables: FaceTables::new() }
    }
}

impl Strategy for MyBotV4 {
    fn name(&self) -> (r: &str)
        ensures
            r@ == "mybot-v4"@,
    {
        "mybot-v4"
    }

    open spec fn may_pick(my_id: u32, my_dice: Seq<u32>, history: Seq<HistoryEntry>, dice_per_player: u32, r: Move) -> bool {
        ({
                let dice = my_dice;
                let h = history;
                let prev = spec_last_bid(h);
                let pp = match prev {
                    Some(p) => post_chance(dice, h, my_id, 3, 20, p),
                    None => Chance { hits: 1, total: 1 },
                };
                judged_move(
                    |b: Bid| post_chance(dice, h, my_id, 3, 20, b),
                    prev,
                    pp,
                    prev is Some && below_pct(pp, 45),
                    true,
                    r,
                )
            })
    }

    fn pick(&mut self, ctx: &Context) -> (r: Move)
        ensures
            ({
                let dice = ctx.my_dice@;
                let h = ctx.history@;
                let prev = spec_last_bid(h);
                let pp = match prev {
                    Some(p) => post_chance(dice, h, ctx.my_id, 3, 20, p),
                    None => Chance { hits: 1, total: 1 },
                };
                judged_move(
                    |b: Bid| post_chance(dice, h, ctx.my_id, 3, 20, b),
                    prev,
                    pp,
                    prev is Some && below_pct(pp, 45),
                    true,
                    r,
                )
            }),
    {
        post_decision(ctx, &self.tables, 3, 20, 45, true)
    }
}

/// The opening of the fifth and sixth house bots: our count of our best
/// face, on that face.
pub open spec fn smart_opening(dice: Seq<u32>) -> Move {
    let f = spec_best_face(dice);
    let c = spec_count_face(dice, f);
    Move::Bid(Bid { quantity: if c >= 1 { c as u32 } else { 1 }, face: f })
}

/// Opens with the count of our best face (at least one), on that face.
pub fn open_smart(ctx: &Context) -> (r: Move)
    requires
        ctx.well_formed(),
    ensures
        r == smart_opening(ctx.my_dice@),
{
    let f = best_face(ctx.my_dice);
    let c = count_face(ctx.my_dice, f);
    let q = if c >= 1 {
        c
    } else {
        1
    };
    Move::Bid(Bid { quantity: q, face: f })
}

/// The fifth house bot's decision.
pub open spec fn v5_decision(ctx: &Context, r: Move) -> bool {
    let dice = ctx.my_dice@;
    let h = ctx.history@;
    let prev = spec_last_bid(h);
    let pp = match prev {
        Some(p) => post_chance(dice, h, ctx.my_id, 2, 5, p),
        None => Chance { hits: 1, total: 1 },
    };
    &&& prev is None ==> r == smart_opening(dice)
    &&& prev is Some ==> judged_move(
        |b: Bid| post_chance(dice, h, ctx.my_id, 2, 5, b),
        prev,
        pp,
        below_pct(pp, 35),
        true,
        r,
    )
}

/// Opens with its count of its best face; judges by the posterior with a
/// softer 40% cut below the implied count; challenges below 35%.
pub struct MyBotV5 {
    pub _rng: StdRng,
    pub tables: FaceTables,
}

impl MyBotV5 {
    /// The bot, drawing what it leaves to chance from `rng`.
    pub fn new(rng: StdRng) -> (r: Self)
        ensures
            r._rng == rng,
    {
        MyBotV5 { _rng: rng, tables: FaceTables::new() }
    }
}

impl Strategy for MyBotV5 {
    fn name(&self) -> (r: &str)
        ensures
            r@ == "mybot-v5"@,
    {
        "mybot-v5"
    }

    fn pick(&mut self, ctx: &Context) -> (r: Move)
        ensures
            v5_decision(ctx, r),
    {
        if last_bid(ctx).is_none() {
            return open_smart(ctx);
        }
        post_decision(ctx, &self.tables, 2, 5, 35, true)
    }
}

/// The fifth bot without the secondary check: it always makes its best raise
/// unless the last bid is below 35%.
pub struct MyBotV6 {
    pub _rng: StdRng,
    pub tables: FaceTables,
}

impl MyBotV6 {
    /// The bot, drawing what it leaves to chance from `rng`.
    pub fn new(rng: StdRng) -> (r: Self)
        ensures
            r._rng == rng,
    {
        MyBotV6 { _rng: rng, tables: FaceTables::new() }
    }
}

impl Strategy for MyBotV6 {
    fn name(&self) -> (r: &str)
        ensures
            r@ == "mybot-v6"@,
    {
        "mybot-v6"
    }

    open spec fn may_pick(my_id: u32, my_dice: Seq<u32>, history: Seq<HistoryEntry>, dice_per_player: u32, r: Move) -> bool {
        ({
                let dice = my_dice;
                let h = history;
                let prev = spec_last_bid(h);
                let pp = match prev {
                    Some(p) => post_chance(dice, h, my_id, 2, 5, p),
                    None => Chance { hits: 1, total: 1 },
                };
                &&& prev is None ==> r == smart_opening(dice)
                &&& prev is Some ==> judged_move(
                    |b: Bid| post_chance(dice, h, my_id, 2, 5, b),
                    prev,
                    pp,
                    below_pct(pp, 35),
                    false,
                    r,
                )
            })
    }

    fn pick(&mut self, ctx: &Context) -> (r: Move)
        ensures
            ({
                let dice = ctx.my_dice@;
                let h = ctx.history@;
                let prev = spec_last_bid(h);
                let pp = match prev {
                    Some(p) => post_chance(dice, h, ctx.my_id, 2, 5, p),
                    None => Chance { hits: 1, total: 1 },
                };
                &&& prev is None ==> r == smart_opening(dice)
                &&& prev is Some ==> judged_move(
                    |b: Bid| post_chance(dice, h, ctx.my_id, 2, 5, b),
                    prev,
                    pp,
                    below_pct(pp, 35),
                    false,
                    r,
                )
            }),
    {
        if last_bid(ctx).is_none() {
            return open_smart(ctx);
        }
        post_decision(ctx, &self.tables, 2, 5, 35, false)
    }
}

/// The deployed bot's fallback decision (see `mixture_pick`).
pub open spec fn mixture_decision(ctx: &Context, r: Move) -> bool {
    let dice = ctx.my_dice@;
    let h = ctx.history@;
    let prev = spec_last_bid(h);
    let pp = match prev {
        Some(p) => post_chance(dice, h, ctx.my_id, 1, 1, p),
        None => Chance { hits: 1, total: 1 },
    };
    judged_move(
        |b: Bid| post_chance(dice, h, ctx.my_id, 1, 1, b),
        prev,
        pp,
        prev is Some && below_pct(pp, 40),
        true,
        r,
    )
}

/// The deployed bot's fallback: the posterior that weighs the opponent's
/// strongest face three to one once it has bid the face, with no cut below
/// its bids; challenges a last bid below 40%, else makes the least raise of
/// greatest chance unless even that falls 5 points short of challenging.
pub fn mixture_pick(ctx: &Context, tables: &FaceTables) -> (r: Move)
    requires
        ctx.well_formed(),
    ensures
        mixture_decision(ctx, r),
{
    post_decision(ctx, tables, 1, 1, 40, true)
}

} // verus!
