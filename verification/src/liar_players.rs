//! Opponent players for Liar's Dice: baselines and patterns taken from real
//! opponents. Each one's decision is stated exactly in its contract.
use crate::bidding::{
    best_face, branch3_still_alive, is_next_bid, last_bid, legal_next_bids, lists_next_bids, opp_dice,
    spec_best_face, spec_branch3_still_alive,
};
use crate::chance::{below_pct, face_weight, p_bid_succeeds, spec_p_bid_succeeds, Chance};
use crate::dice::{
    count_face, count_literal, lemma_count_face_bounded, lemma_last_bid_ok, spec_count_face,
    spec_count_literal, spec_last_bid, round_entry, round_record, Bid, Context, HistoryEntry, MatchResult, Move,
    Strategy,
};
use crate::rng::{gen_index, gen_range_inclusive_u32, gen_ratio};
use rand::rngs::StdRng;
use vstd::prelude::*;

verus! {

// ---------------------------------------------------------------- shared specs

/// The exact chance that bid `b` holds, seen from `dice` against `opp` hidden dice.
pub open spec fn chance_of(dice: Seq<u32>, opp: u32, b: Bid) -> Chance {
    spec_p_bid_succeeds(b.quantity, b.face, spec_count_face(dice, b.face), opp)
}

/// Bid quantity exceeds what we see plus the opponent's expected share plus
/// `half` halves of a die: `q > mine + opp * w / 6 + half / 2`.
pub open spec fn over_expectation(q: u32, mine: nat, face: u32, opp: u32, half: nat) -> bool {
    6 * q > 6 * mine + opp * face_weight(face) + 3 * half
}

/// The opponent's expected share of `face`, rounded half up: `round(opp * w / 6)`.
pub open spec fn rounded_expectation(opp: u32, face: u32) -> nat {
    ((opp * face_weight(face) + 3) / 6) as nat
}

/// Clamp into `lo..=hi`.
pub open spec fn clamp(x: int, lo: int, hi: int) -> int {
    if x < lo {
        lo
    } else if x > hi {
        hi
    } else {
        x
    }
}

/// Raise the last bid by one on its face, or challenge when that would pass ten.
pub open spec fn spec_raise_same_face(p: Bid) -> Move {
    if p.quantity + 1 <= 10 {
        Move::Bid(Bid { quantity: (p.quantity + 1) as u32, face: p.face })
    } else {
        Move::Challenge
    }
}

/// The context's facts that every player below relies on.
pub(crate) proof fn lemma_ctx_facts(ctx: &Context)
    requires
        ctx.well_formed(),
    ensures
        spec_last_bid(ctx.history@) matches Some(b) ==> crate::dice::valid_bid(b) && b.quantity < u32::MAX
            && b.face < u32::MAX,
        forall|f: u32| #[trigger] spec_count_face(ctx.my_dice@, f) <= ctx.my_dice@.len(),
{
    lemma_last_bid_ok(ctx.history@);
    assert forall|f: u32| #[trigger] spec_count_face(ctx.my_dice@, f) <= ctx.my_dice@.len() by {
        lemma_count_face_bounded(ctx.my_dice@, f);
    }
}

// ---------------------------------------------------------------- shared exec helpers

/// The exact chance that `b` holds given our dice.
pub fn bid_chance(ctx: &Context, b: Bid) -> (r: Chance)
    requires
        ctx.well_formed(),
    ensures
        r == chance_of(ctx.my_dice@, ctx.dice_per_player, b),
        r.hits <= r.total,
        r.total == crate::chance::npow(6, ctx.dice_per_player as nat),
{
    let mine = count_face(ctx.my_dice, b.face);
    p_bid_succeeds(b.quantity, b.face, mine, opp_dice(ctx))
}

/// Whether `q > mine + opp * p_match(face) + half / 2`.
fn exceeds_expectation(q: u32, mine: u32, face: u32, opp: u32, half: u32) -> (r: bool)
    requires
        mine + 100 <= u32::MAX,
        opp <= 24,
        half <= 1,
    ensures
        r == over_expectation(q, mine as nat, face, opp, half as nat),
{
    let w: u64 = if face == 1 {
        1
    } else {
        2
    };
    6 * (q as u64) > 6 * (mine as u64) + (opp as u64) * w + 3 * (half as u64)
}

/// `round(opp * p_match(face))`.
fn round_expectation(opp: u32, face: u32) -> (r: u32)
    requires
        opp <= 24,
    ensures
        r == rounded_expectation(opp, face),
        r <= 9,
{
    let w: u32 = if face == 1 {
        1
    } else {
        2
    };
    (opp * w + 3) / 6
}

/// Shared helper: challenge if `P(prev bid succeeds | own dice, opp count)`
/// drops below `threshold_pct` percent, otherwise play `fallback`.
fn challenge_or_bid(ctx: &Context, prev: Bid, threshold_pct: u64, fallback: Move) -> (r: Move)
    requires
        ctx.well_formed(),
    ensures
        r == if below_pct(chance_of(ctx.my_dice@, ctx.dice_per_player, prev), threshold_pct as nat) {
            Move::Challenge
        } else {
            fallback
        },
{
    let p = bid_chance(ctx, prev);
    if p.below_percent(threshold_pct) {
        Move::Challenge
    } else {
        fallback
    }
}

// ---------------------------------------------------------------- baselines

pub struct Random {
    pub rng: StdRng,
}

impl Strategy for Random {
    fn name(&self) -> (r: &str)
        ensures
            r@ == "random"@,
    {
        "random"
    }

    /// 25% chance to challenge if possible, otherwise a uniformly drawn legal raise.
    open spec fn may_pick(my_id: u32, my_dice: Seq<u32>, history: Seq<HistoryEntry>, dice_per_player: u32, r: Move) -> bool {
        (spec_last_bid(history) is None ==> r is Bid) && (r matches Move::Bid(b) ==> is_next_bid(spec_last_bid(history), b))
    }

    fn pick(&mut self, ctx: &Context) -> (r: Move)
        ensures
            spec_last_bid(ctx.history@) is None ==> r is Bid,
            r matches Move::Bid(b) ==> is_next_bid(spec_last_bid(ctx.history@), b),
    {
        proof {
            lemma_ctx_facts(ctx);
        }
        let prev = last_bid(ctx);
        if prev.is_some() && gen_ratio(&mut self.rng, 1, 4) {
            return Move::Challenge;
        }
        let bids = legal_next_bids(prev);
        proof {
            if prev is None {
                assert(is_next_bid(prev, Bid { quantity: 1, face: 1 }));
                assert(bids@.contains(Bid { quantity: 1, face: 1 }));
            }
        }
        if bids.len() == 0 {
            return Move::Challenge;
        }
        let idx = gen_index(&mut self.rng, bids.len());
        Move::Bid(bids[idx])
    }
}

/// Challenges immediately if able; otherwise opens at (1, 6).
pub struct AlwaysChallenge;

impl Strategy for AlwaysChallenge {
    fn name(&self) -> (r: &str)
        ensures
            r@ == "always-challenge"@,
    {
        "always-challenge"
    }

    open spec fn may_pick(my_id: u32, my_dice: Seq<u32>, history: Seq<HistoryEntry>, dice_per_player: u32, r: Move) -> bool {
        r == if spec_last_bid(history) is Some {
            Move::Challenge
        } else {
            Move::Bid(Bid { quantity: 1, face: 6 })
        }
    }

    fn pick(&mut self, ctx: &Context) -> (r: Move)
        ensures
            r == if spec_last_bid(ctx.history@) is Some {
                Move::Challenge
            } else {
                Move::Bid(Bid { quantity: 1, face: 6 })
            },
    {
        if last_bid(ctx).is_some() {
            Move::Challenge
        } else {
            Move::Bid(Bid { quantity: 1, face: 6 })
        }
    }
}

/// Never challenges; raises quantity by 1 (face stays at most-common face in their hand).
pub struct NeverChallenge;

pub open spec fn spec_never_challenge(dice: Seq<u32>, prev: Option<Bid>) -> Move {
    let preferred = spec_best_face(dice);
    match prev {
        None => Move::Bid(Bid { quantity: 2, face: preferred }),
        Some(p) => if p.quantity >= 10 {
            Move::Challenge
        } else {
            Move::Bid(Bid { quantity: (p.quantity + 1) as u32, face: preferred })
        },
    }
}

impl Strategy for NeverChallenge {
    fn name(&self) -> (r: &str)
        ensures
            r@ == "never-challenge"@,
    {
        "never-challenge"
    }

    open spec fn may_pick(my_id: u32, my_dice: Seq<u32>, history: Seq<HistoryEntry>, dice_per_player: u32, r: Move) -> bool {
        r == spec_never_challenge(my_dice, spec_last_bid(history))
    }

    fn pick(&mut self, ctx: &Context) -> (r: Move)
        ensures
            r == spec_never_challenge(ctx.my_dice@, spec_last_bid(ctx.history@)),
    {
        let prev = last_bid(ctx);
        let preferred = best_face(ctx.my_dice);
        let bid = match prev {
            None => Bid { quantity: 2, face: preferred },
            Some(p) => {
                if p.quantity >= 10 {
                    // forced challenge (no legal raise) — we said "never", but no choice
                    return Move::Challenge;
                }
                Bid { quantity: p.quantity + 1, face: preferred }
            },
        };
        Move::Bid(bid)
    }
}

/// Bids "what they actually see" (no overestimating); challenges any bid that
/// exceeds the visible+expected total.
pub struct Honest;

pub open spec fn spec_honest(dice: Seq<u32>, prev: Option<Bid>, opp: u32) -> Move {
    let face = spec_best_face(dice);
    let expected = spec_count_face(dice, face) + rounded_expectation(opp, face);
    let bid = Bid { quantity: clamp(expected as int, 1, u32::MAX as int) as u32, face };
    match prev {
        None => Move::Bid(bid),
        Some(p) => if over_expectation(p.quantity, spec_count_face(dice, p.face), p.face, opp, 1) {
            Move::Challenge
        } else if bid.spec_beats(p) {
            Move::Bid(bid)
        } else if p.quantity + 1 <= 10 {
            Move::Bid(Bid { quantity: (p.quantity + 1) as u32, face })
        } else {
            Move::Challenge
        },
    }
}

impl Strategy for Honest {
    fn name(&self) -> (r: &str)
        ensures
            r@ == "honest"@,
    {
        "honest"
    }

    open spec fn may_pick(my_id: u32, my_dice: Seq<u32>, history: Seq<HistoryEntry>, dice_per_player: u32, r: Move) -> bool {
        r == spec_honest(my_dice, spec_last_bid(history), dice_per_player)
    }

    fn pick(&mut self, ctx: &Context) -> (r: Move)
        ensures
            r == spec_honest(ctx.my_dice@, spec_last_bid(ctx.history@), ctx.dice_per_player),
    {
        proof {
            lemma_ctx_facts(ctx);
        }
        let prev = last_bid(ctx);
        let opp = opp_dice(ctx);
        if let Some(p) = prev {
            let mine = count_face(ctx.my_dice, p.face);
            if exceeds_expectation(p.quantity, mine, p.face, opp, 1) {
                return Move::Challenge;
            }
        }
        // Pick our strongest face and bid our visible count + the expected wilds.
        let face = best_face(ctx.my_dice);
        let mine = count_face(ctx.my_dice, face);
        let expected = mine + round_expectation(opp, face);
        let bid = Bid { quantity: if expected < 1 { 1 } else { expected }, face };
        match prev {
            None => Move::Bid(bid),
            Some(p) => {
                if bid.beats(p) {
                    Move::Bid(bid)
                } else {
                    // smallest legal raise on same face
                    let raise = Bid { quantity: p.quantity + 1, face };
                    if raise.quantity <= 10 {
                        Move::Bid(raise)
                    } else {
                        Move::Challenge
                    }
                }
            },
        }
    }
}

/// Only bids based on dice they literally hold; challenges anything beyond
/// (visible + expected opp).
pub struct Conservative;

pub open spec fn spec_conservative(dice: Seq<u32>, prev: Option<Bid>, opp: u32) -> Move {
    let face = spec_best_face(dice);
    let bid = Bid { quantity: clamp(spec_count_face(dice, face) as int, 1, u32::MAX as int) as u32, face };
    match prev {
        None => Move::Bid(bid),
        Some(p) => if over_expectation(p.quantity, spec_count_face(dice, p.face), p.face, opp, 0) {
            Move::Challenge
        } else if bid.spec_beats(p) {
            Move::Bid(bid)
        } else {
            Move::Challenge
        },
    }
}

impl Strategy for Conservative {
    fn name(&self) -> (r: &str)
        ensures
            r@ == "conservative"@,
    {
        "conservative"
    }

    open spec fn may_pick(my_id: u32, my_dice: Seq<u32>, history: Seq<HistoryEntry>, dice_per_player: u32, r: Move) -> bool {
        r == spec_conservative(my_dice, spec_last_bid(history), dice_per_player)
    }

    fn pick(&mut self, ctx: &Context) -> (r: Move)
        ensures
            r == spec_conservative(ctx.my_dice@, spec_last_bid(ctx.history@), ctx.dice_per_player),
    {
        proof {
            lemma_ctx_facts(ctx);
        }
        let prev = last_bid(ctx);
        if let Some(p) = prev {
            let mine = count_face(ctx.my_dice, p.face);
            // Challenge if even the expected opponent contribution doesn't get us there.
            if exceeds_expectation(p.quantity, mine, p.face, opp_dice(ctx), 0) {
                return Move::Challenge;
            }
        }
        let face = best_face(ctx.my_dice);
        let mine = count_face(ctx.my_dice, face);
        let bid = Bid { quantity: if mine < 1 { 1 } else { mine }, face };
        match prev {
            None => Move::Bid(bid),
            Some(p) => {
                if bid.beats(p) {
                    Move::Bid(bid)
                } else {
                    Move::Challenge
                }
            },
        }
    }
}

/// Bids overaggressively (visible + opp expectation + 1). Challenges rarely:
/// exact-binomial `P(prev) < 0.15`.
pub struct Aggressive;

pub open spec fn spec_aggressive(dice: Seq<u32>, prev: Option<Bid>, opp: u32) -> Move {
    let face = spec_best_face(dice);
    let target = spec_count_face(dice, face) + rounded_expectation(opp, face) + 1;
    let pref = Bid { quantity: clamp(target as int, 1, 10) as u32, face };
    match prev {
        None => Move::Bid(pref),
        Some(p) => if below_pct(chance_of(dice, opp, p), 15) {
            Move::Challenge
        } else if pref.spec_beats(p) {
            Move::Bid(pref)
        } else {
            spec_raise_same_face(p)
        },
    }
}

impl Strategy for Aggressive {
    fn name(&self) -> (r: &str)
        ensures
            r@ == "aggressive"@,
    {
        "aggressive"
    }

    open spec fn may_pick(my_id: u32, my_dice: Seq<u32>, history: Seq<HistoryEntry>, dice_per_player: u32, r: Move) -> bool {
        r == spec_aggressive(my_dice, spec_last_bid(history), dice_per_player)
    }

    fn pick(&mut self, ctx: &Context) -> (r: Move)
        ensures
            r == spec_aggressive(ctx.my_dice@, spec_last_bid(ctx.history@), ctx.dice_per_player),
    {
        proof {
            lemma_ctx_facts(ctx);
        }
        let prev = last_bid(ctx);
        let opp = opp_dice(ctx);
        let face = best_face(ctx.my_dice);
        let mine = count_face(ctx.my_dice, face);
        let target = mine + round_expectation(opp, face) + 1;
        let pref = Bid { quantity: if target > 10 { 10 } else { target }, face };
        match prev {
            None => Move::Bid(pref),
            Some(p) => {
                let fallback = if pref.beats(p) {
                    Move::Bid(pref)
                } else {
                    let r = Bid { quantity: p.quantity + 1, face: p.face };
                    if r.quantity <= 10 {
                        Move::Bid(r)
                    } else {
                        Move::Challenge
                    }
                };
                challenge_or_bid(ctx, p, 15, fallback)
            },
        }
    }
}

/// Bluffs by inflating quantity by a random amount.
pub struct Bluffer {
    pub rng: StdRng,
}

/// Bluffer's bid after drawing an inflation of `inflate` dice.
pub open spec fn spec_bluffer_bid(dice: Seq<u32>, prev: Option<Bid>, inflate: u32) -> Move {
    let face = spec_best_face(dice);
    let target = spec_count_face(dice, face) + inflate;
    let bid = Bid { quantity: clamp(target as int, 1, 10) as u32, face };
    match prev {
        None => Move::Bid(bid),
        Some(p) => if bid.spec_beats(p) {
            Move::Bid(bid)
        } else {
            spec_raise_same_face(p)
        },
    }
}

/// Bluffer's move once the random inflation is known.
pub fn bluffer_bid(ctx: &Context, prev: Option<Bid>, inflate: u32) -> (r: Move)
    requires
        ctx.well_formed(),
        prev == spec_last_bid(ctx.history@),
        1 <= inflate <= 3,
    ensures
        r == spec_bluffer_bid(ctx.my_dice@, prev, inflate),
{
    proof {
        lemma_ctx_facts(ctx);
    }
    let face = best_face(ctx.my_dice);
    let mine = count_face(ctx.my_dice, face);
    let target = mine + inflate;
    let bid = Bid { quantity: if target > 10 { 10 } else { target }, face };
    match prev {
        None => Move::Bid(bid),
        Some(p) => {
            if bid.beats(p) {
                Move::Bid(bid)
            } else {
                let r = Bid { quantity: p.quantity + 1, face: p.face };
                if r.quantity <= 10 {
                    Move::Bid(r)
                } else {
                    Move::Challenge
                }
            }
        },
    }
}

impl Strategy for Bluffer {
    fn name(&self) -> (r: &str)
        ensures
            r@ == "bluffer"@,
    {
        "bluffer"
    }

    /// Rarely challenges (10%); otherwise bids its best face inflated by 1 to 3 dice.
    open spec fn may_pick(my_id: u32, my_dice: Seq<u32>, history: Seq<HistoryEntry>, dice_per_player: u32, r: Move) -> bool {
        (r is Challenge ==> spec_last_bid(history) is Some) && (r is Bid ==> exists|inflate: u32|
                1 <= inflate <= 3 && r == spec_bluffer_bid(my_dice, spec_last_bid(history), inflate))
    }

    fn pick(&mut self, ctx: &Context) -> (r: Move)
        ensures
            r is Challenge ==> spec_last_bid(ctx.history@) is Some,
            r is Bid ==> exists|inflate: u32|
                1 <= inflate <= 3 && r == spec_bluffer_bid(ctx.my_dice@, spec_last_bid(ctx.history@), inflate),
    {
        let prev = last_bid(ctx);
        if prev.is_some() && gen_ratio(&mut self.rng, 1, 10) {
            return Move::Challenge;
        }
        let inflate = gen_range_inclusive_u32(&mut self.rng, 1, 3);
        let r = bluffer_bid(ctx, prev, inflate);
        proof {
            if r is Challenge {
                assert(prev is Some);
            }
        }
        r
    }
}

/// Always raises quantity by exactly 1 on the same face (most-common face when
/// opening). Challenges at exact-binomial `P(prev) < 0.25`.
pub struct MinIncrement;

pub open spec fn spec_min_increment(dice: Seq<u32>, prev: Option<Bid>, opp: u32) -> Move {
    match prev {
        None => Move::Bid(Bid { quantity: 1, face: spec_best_face(dice) }),
        Some(p) => if below_pct(chance_of(dice, opp, p), 25) {
            Move::Challenge
        } else {
            spec_raise_same_face(p)
        },
    }
}

impl Strategy for MinIncrement {
    fn name(&self) -> (r: &str)
        ensures
            r@ == "min-increment"@,
    {
        "min-increment"
    }

    open spec fn may_pick(my_id: u32, my_dice: Seq<u32>, history: Seq<HistoryEntry>, dice_per_player: u32, r: Move) -> bool {
        r == spec_min_increment(my_dice, spec_last_bid(history), dice_per_player)
    }

    fn pick(&mut self, ctx: &Context) -> (r: Move)
        ensures
            r == spec_min_increment(ctx.my_dice@, spec_last_bid(ctx.history@), ctx.dice_per_player),
    {
        proof {
            lemma_ctx_facts(ctx);
        }
        let prev = last_bid(ctx);
        match prev {
            None => Move::Bid(Bid { quantity: 1, face: best_face(ctx.my_dice) }),
            Some(p) => {
                let q = p.quantity + 1;
                let fallback = if q > 10 {
                    Move::Challenge
                } else {
                    Move::Bid(Bid { quantity: q, face: p.face })
                };
                challenge_or_bid(ctx, p, 25, fallback)
            },
        }
    }
}

/// Bids the same face as the last bidder (copying), keeping quantity minimal.
pub struct Copycat;

pub open spec fn spec_copycat(dice: Seq<u32>, prev: Option<Bid>, opp: u32) -> Move {
    match prev {
        None => Move::Bid(Bid { quantity: 2, face: spec_best_face(dice) }),
        Some(p) => if below_pct(chance_of(dice, opp, p), 30) {
            Move::Challenge
        } else {
            spec_raise_same_face(p)
        },
    }
}

impl Strategy for Copycat {
    fn name(&self) -> (r: &str)
        ensures
            r@ == "copycat"@,
    {
        "copycat"
    }

    open spec fn may_pick(my_id: u32, my_dice: Seq<u32>, history: Seq<HistoryEntry>, dice_per_player: u32, r: Move) -> bool {
        r == spec_copycat(my_dice, spec_last_bid(history), dice_per_player)
    }

    fn pick(&mut self, ctx: &Context) -> (r: Move)
        ensures
            r == spec_copycat(ctx.my_dice@, spec_last_bid(ctx.history@), ctx.dice_per_player),
    {
        proof {
            lemma_ctx_facts(ctx);
        }
        let prev = last_bid(ctx);
        if let Some(p) = prev {
            let p_succ = bid_chance(ctx, p);
            if p_succ.below_percent(30) {
                return Move::Challenge;
            }
            let raise = Bid { quantity: p.quantity + 1, face: p.face };
            if raise.quantity <= 10 {
                Move::Bid(raise)
            } else {
                Move::Challenge
            }
        } else {
            let face = best_face(ctx.my_dice);
            Move::Bid(Bid { quantity: 2, face })
        }
    }
}

/// Opens with (count_best_face, best_face) — bold but honest. Raises +1
/// quantity on the same face. Challenges at exact-binomial `P(prev) < 0.10`.
pub struct AggressiveOpener;

pub open spec fn spec_aggressive_opener(dice: Seq<u32>, prev: Option<Bid>, opp: u32) -> Move {
    match prev {
        None => {
            let face = spec_best_face(dice);
            Move::Bid(
                Bid { quantity: clamp(spec_count_face(dice, face) as int, 1, u32::MAX as int) as u32, face },
            )
        },
        Some(p) => if below_pct(chance_of(dice, opp, p), 10) {
            Move::Challenge
        } else {
            spec_raise_same_face(p)
        },
    }
}

impl Strategy for AggressiveOpener {
    fn name(&self) -> (r: &str)
        ensures
            r@ == "aggressive-opener"@,
    {
        "aggressive-opener"
    }

    open spec fn may_pick(my_id: u32, my_dice: Seq<u32>, history: Seq<HistoryEntry>, dice_per_player: u32, r: Move) -> bool {
        r == spec_aggressive_opener(my_dice, spec_last_bid(history), dice_per_player)
    }

    fn pick(&mut self, ctx: &Context) -> (r: Move)
        ensures
            r == spec_aggressive_opener(ctx.my_dice@, spec_last_bid(ctx.history@), ctx.dice_per_player),
    {
        proof {
            lemma_ctx_facts(ctx);
        }
        let prev = last_bid(ctx);
        match prev {
            None => {
                let face = best_face(ctx.my_dice);
                let c = count_face(ctx.my_dice, face);
                Move::Bid(Bid { quantity: if c < 1 { 1 } else { c }, face })
            },
            Some(p) => {
                let r = Bid { quantity: p.quantity + 1, face: p.face };
                let fallback = if r.quantity <= 10 {
                    Move::Bid(r)
                } else {
                    Move::Challenge
                };
                challenge_or_bid(ctx, p, 10, fallback)
            },
        }
    }
}


/// Mimics rafl/pqc: same opening Q as BoldOpener (count_best_w_wilds + 1) but
/// ALWAYS bids on its own best face, raising to `max(own_count+1, prev.Q+1)`.
pub struct StubbornBoldOpener;

pub open spec fn spec_stubborn_bold_opener(dice: Seq<u32>, prev: Option<Bid>, opp: u32) -> Move {
    let face = spec_best_face(dice);
    let q_pref = spec_count_face(dice, face) + 1;
    match prev {
        None => Move::Bid(Bid { quantity: q_pref as u32, face }),
        Some(p) => if over_expectation(p.quantity, spec_count_face(dice, p.face), p.face, opp, 1) {
            Move::Challenge
        } else {
            let q = if q_pref >= p.quantity + 1 {
                q_pref as int
            } else {
                p.quantity + 1
            };
            if q > 10 {
                Move::Challenge
            } else {
                Move::Bid(Bid { quantity: q as u32, face })
            }
        },
    }
}

impl Strategy for StubbornBoldOpener {
    fn name(&self) -> (r: &str)
        ensures
            r@ == "stubborn-bold-opener"@,
    {
        "stubborn-bold-opener"
    }

    open spec fn may_pick(my_id: u32, my_dice: Seq<u32>, history: Seq<HistoryEntry>, dice_per_player: u32, r: Move) -> bool {
        r == spec_stubborn_bold_opener(my_dice, spec_last_bid(history), dice_per_player)
    }

    fn pick(&mut self, ctx: &Context) -> (r: Move)
        ensures
            r == spec_stubborn_bold_opener(ctx.my_dice@, spec_last_bid(ctx.history@), ctx.dice_per_player),
    {
        proof {
            lemma_ctx_facts(ctx);
        }
        let prev = last_bid(ctx);
        let opp = opp_dice(ctx);
        let face = best_face(ctx.my_dice);
        let mine = count_face(ctx.my_dice, face);
        let q_pref = mine + 1;
        if let Some(p) = prev {
            // Honest-style challenge on prev face.
            let mine_p = count_face(ctx.my_dice, p.face);
            if exceeds_expectation(p.quantity, mine_p, p.face, opp, 1) {
                return Move::Challenge;
            }
            let q = if q_pref >= p.quantity + 1 {
                q_pref
            } else {
                p.quantity + 1
            };
            if q > 10 {
                return Move::Challenge;
            }
            Move::Bid(Bid { quantity: q, face })
        } else {
            Move::Bid(Bid { quantity: q_pref, face })
        }
    }
}

/// Mimics rafl/qjw: opens at (count_best, best_face) like AggressiveOpener,
/// but raises by the minimum legal face increment (Q same, face+1 toward 6,
/// then Q+1 once at face=6). Challenges when bid is impossible from own view.
pub struct FaceRaiser;

pub open spec fn spec_face_raiser(dice: Seq<u32>, prev: Option<Bid>, opp: u32) -> Move {
    match prev {
        None => {
            let face = spec_best_face(dice);
            Move::Bid(
                Bid { quantity: clamp(spec_count_face(dice, face) as int, 1, u32::MAX as int) as u32, face },
            )
        },
        Some(p) => if p.quantity - spec_count_face(dice, p.face) > opp {
            Move::Challenge
        } else if p.face < 6 {
            Move::Bid(Bid { quantity: p.quantity, face: (p.face + 1) as u32 })
        } else {
            spec_raise_same_face(p)
        },
    }
}

impl Strategy for FaceRaiser {
    fn name(&self) -> (r: &str)
        ensures
            r@ == "face-raiser"@,
    {
        "face-raiser"
    }

    open spec fn may_pick(my_id: u32, my_dice: Seq<u32>, history: Seq<HistoryEntry>, dice_per_player: u32, r: Move) -> bool {
        r == spec_face_raiser(my_dice, spec_last_bid(history), dice_per_player)
    }

    fn pick(&mut self, ctx: &Context) -> (r: Move)
        ensures
            r == spec_face_raiser(ctx.my_dice@, spec_last_bid(ctx.history@), ctx.dice_per_player),
    {
        proof {
            lemma_ctx_facts(ctx);
        }
        let prev = last_bid(ctx);
        let opp = opp_dice(ctx);
        if let Some(p) = prev {
            let mine = count_face(ctx.my_dice, p.face);
            if p.quantity as i64 - mine as i64 > opp as i64 {
                return Move::Challenge;
            }
            if p.face < 6 {
                return Move::Bid(Bid { quantity: p.quantity, face: p.face + 1 });
            }
            let q = p.quantity + 1;
            if q > 10 {
                return Move::Challenge;
            }
            return Move::Bid(Bid { quantity: q, face: p.face });
        }
        let face = best_face(ctx.my_dice);
        let c = count_face(ctx.my_dice, face);
        Move::Bid(Bid { quantity: if c < 1 { 1 } else { c }, face })
    }
}

/// Mimics rafl/wjm: always bids on face=6. Target Q is
/// `max(prev.Q+1 if same face else prev.Q, own_count_6_w_wilds + 1)`.
/// Challenges when target Q exceeds `own_count + expected_opp + 0.5`.
pub struct SixFixator;

pub open spec fn spec_six_fixator(dice: Seq<u32>, prev: Option<Bid>, opp: u32) -> Move {
    let mine: int = spec_count_face(dice, 6) as int;
    let target: int = match prev {
        None => mine + 1,
        Some(p) => {
            let q_from_prev: int = if p.face == 6 {
                p.quantity + 1
            } else {
                clamp(p.quantity as int, 1, u32::MAX as int)
            };
            if q_from_prev >= mine + 1 {
                q_from_prev
            } else {
                mine + 1
            }
        },
    };
    if 6 * target > 6 * mine + opp * 2 + 3 || target > 10 {
        Move::Challenge
    } else {
        Move::Bid(Bid { quantity: target as u32, face: 6 })
    }
}

impl Strategy for SixFixator {
    fn name(&self) -> (r: &str)
        ensures
            r@ == "six-fixator"@,
    {
        "six-fixator"
    }

    open spec fn may_pick(my_id: u32, my_dice: Seq<u32>, history: Seq<HistoryEntry>, dice_per_player: u32, r: Move) -> bool {
        r == spec_six_fixator(my_dice, spec_last_bid(history), dice_per_player)
    }

    fn pick(&mut self, ctx: &Context) -> (r: Move)
        ensures
            r == spec_six_fixator(ctx.my_dice@, spec_last_bid(ctx.history@), ctx.dice_per_player),
    {
        proof {
            lemma_ctx_facts(ctx);
        }
        let prev = last_bid(ctx);
        let opp = opp_dice(ctx);
        let face = 6u32;
        let mine = count_face(ctx.my_dice, face);
        let target_q = match prev {
            None => mine + 1,
            Some(p) => {
                let q_from_prev = if p.face == face {
                    p.quantity + 1
                } else if p.quantity < 1 {
                    1
                } else {
                    p.quantity
                };
                if q_from_prev >= mine + 1 {
                    q_from_prev
                } else {
                    mine + 1
                }
            },
        };
        if exceeds_expectation(target_q, mine, face, opp, 1) || target_q > 10 {
            return Move::Challenge;
        }
        Move::Bid(Bid { quantity: target_q, face })
    }
}

/// Mimics rafl/wjm + rafl/nvx: opens at (count_best_face + 1, best_face) —
/// one above the honest count, a soft bluff. Raises +1 quantity on the
/// prev face. Challenges Honest-style: `bid.Q > visible + opp_expected + 0.5`.
pub struct BoldOpener;

pub open spec fn spec_bold_opener(dice: Seq<u32>, prev: Option<Bid>, opp: u32) -> Move {
    match prev {
        None => {
            let face = spec_best_face(dice);
            Move::Bid(Bid { quantity: clamp(spec_count_face(dice, face) + 1int, 1, 10) as u32, face })
        },
        Some(p) => if over_expectation(p.quantity, spec_count_face(dice, p.face), p.face, opp, 1) {
            Move::Challenge
        } else {
            spec_raise_same_face(p)
        },
    }
}

impl Strategy for BoldOpener {
    fn name(&self) -> (r: &str)
        ensures
            r@ == "bold-opener"@,
    {
        "bold-opener"
    }

    open spec fn may_pick(my_id: u32, my_dice: Seq<u32>, history: Seq<HistoryEntry>, dice_per_player: u32, r: Move) -> bool {
        r == spec_bold_opener(my_dice, spec_last_bid(history), dice_per_player)
    }

    fn pick(&mut self, ctx: &Context) -> (r: Move)
        ensures
            r == spec_bold_opener(ctx.my_dice@, spec_last_bid(ctx.history@), ctx.dice_per_player),
    {
        proof {
            lemma_ctx_facts(ctx);
        }
        let prev = last_bid(ctx);
        let opp = opp_dice(ctx);
        if let Some(p) = prev {
            let mine = count_face(ctx.my_dice, p.face);
            if exceeds_expectation(p.quantity, mine, p.face, opp, 1) {
                return Move::Challenge;
            }
            let r = Bid { quantity: p.quantity + 1, face: p.face };
            if r.quantity <= 10 {
                return Move::Bid(r);
            }
            return Move::Challenge;
        }
        // Opening: bid (count_best + 1, best_face).
        let face = best_face(ctx.my_dice);
        let c = count_face(ctx.my_dice, face);
        let q = if c + 1 > 10 {
            10
        } else {
            c + 1
        };
        Move::Bid(Bid { quantity: q, face })
    }
}


// ---------------------------------------------------------------- searching the legal raises

/// `b` is the least next bid of greatest chance.
pub open spec fn least_best(dice: Seq<u32>, opp: u32, prev: Option<Bid>, b: Bid) -> bool {
    &&& is_next_bid(prev, b)
    &&& forall|c: Bid| is_next_bid(prev, c) ==> chance_of(dice, opp, c).hits <= chance_of(dice, opp, b).hits
    &&& forall|c: Bid|
        is_next_bid(prev, c) && b.spec_beats(c) ==> chance_of(dice, opp, c).hits < chance_of(dice, opp, b).hits
}

/// `b` is the greatest next bid of greatest chance.
pub open spec fn greatest_best(dice: Seq<u32>, opp: u32, prev: Option<Bid>, b: Bid) -> bool {
    &&& is_next_bid(prev, b)
    &&& forall|c: Bid| is_next_bid(prev, c) ==> chance_of(dice, opp, c).hits <= chance_of(dice, opp, b).hits
    &&& forall|c: Bid|
        is_next_bid(prev, c) && c.spec_beats(b) ==> chance_of(dice, opp, c).hits < chance_of(dice, opp, b).hits
}

/// `b` is the least next bid whose chance is at least `pct` percent.
pub open spec fn least_safe(dice: Seq<u32>, opp: u32, prev: Option<Bid>, b: Bid, pct: nat) -> bool {
    &&& is_next_bid(prev, b)
    &&& !below_pct(chance_of(dice, opp, b), pct)
    &&& forall|c: Bid| is_next_bid(prev, c) && b.spec_beats(c) ==> below_pct(chance_of(dice, opp, c), pct)
}

/// No next bid reaches `pct` percent.
pub open spec fn none_safe(dice: Seq<u32>, opp: u32, prev: Option<Bid>, pct: nat) -> bool {
    forall|c: Bid| is_next_bid(prev, c) ==> below_pct(chance_of(dice, opp, c), pct)
}

/// In a sorted list of raises, the entry that another beats comes first.
pub(crate) proof fn lemma_sorted_order(prev: Option<Bid>, bids: Seq<Bid>, i: int, j: int)
    requires
        lists_next_bids(prev, bids),
        0 <= i < bids.len(),
        0 <= j < bids.len(),
        bids[i].spec_beats(bids[j]),
    ensures
        j < i,
{
    if j > i {
        assert(bids[j].spec_beats(bids[i]));
    }
}

/// Every next bid has a position in the list.
pub(crate) proof fn lemma_position(prev: Option<Bid>, bids: Seq<Bid>, c: Bid) -> (j: int)
    requires
        lists_next_bids(prev, bids),
        is_next_bid(prev, c),
    ensures
        0 <= j < bids.len(),
        bids[j] == c,
{
    assert(bids.contains(c));
    choose|j: int| 0 <= j < bids.len() && bids[j] == c
}

/// Index of the first bid of greatest chance.
pub(crate) fn first_max_index(ctx: &Context, bids: &Vec<Bid>, Ghost(prev): Ghost<Option<Bid>>) -> (r: Option<usize>)
    requires
        ctx.well_formed(),
        lists_next_bids(prev, bids@),
    ensures
        r is None <==> bids@.len() == 0,
        r matches Some(i) ==> i < bids@.len() && least_best(
            ctx.my_dice@,
            ctx.dice_per_player,
            prev,
            bids@[i as int],
        ),
{
    if bids.len() == 0 {
        return None;
    }
    let ghost dice = ctx.my_dice@;
    let ghost opp = ctx.dice_per_player;
    let mut best: usize = 0;
    let mut best_hits = bid_chance(ctx, bids[0]).hits;
    let mut i: usize = 1;
    while i < bids.len()
        invariant
            ctx.well_formed(),
            dice == ctx.my_dice@,
            opp == ctx.dice_per_player,
            1 <= i <= bids@.len(),
            best < i,
            best_hits == chance_of(dice, opp, bids@[best as int]).hits,
            forall|j: int| 0 <= j < i ==> chance_of(dice, opp, #[trigger] bids@[j]).hits <= best_hits,
            forall|j: int| 0 <= j < best ==> chance_of(dice, opp, #[trigger] bids@[j]).hits < best_hits,
        decreases bids@.len() - i,
    {
        let h = bid_chance(ctx, bids[i]).hits;
        if h > best_hits {
            best = i;
            best_hits = h;
        }
        i = i + 1;
    }
    proof {
        let b = bids@[best as int];
        assert forall|c: Bid| is_next_bid(prev, c) implies chance_of(dice, opp, c).hits <= chance_of(
            dice,
            opp,
            b,
        ).hits by {
            let j = lemma_position(prev, bids@, c);
            assert(chance_of(dice, opp, bids@[j]).hits <= best_hits);
        }
        assert forall|c: Bid| is_next_bid(prev, c) && b.spec_beats(c) implies chance_of(
            dice,
            opp,
            c,
        ).hits < chance_of(dice, opp, b).hits by {
            let j = lemma_position(prev, bids@, c);
            lemma_sorted_order(prev, bids@, best as int, j);
            assert(chance_of(dice, opp, bids@[j]).hits < best_hits);
        }
    }
    Some(best)
}

/// Index of the last bid of greatest chance.
pub(crate) fn last_max_index(ctx: &Context, bids: &Vec<Bid>, Ghost(prev): Ghost<Option<Bid>>) -> (r: Option<usize>)
    requires
        ctx.well_formed(),
        lists_next_bids(prev, bids@),
    ensures
        r is None <==> bids@.len() == 0,
        r matches Some(i) ==> i < bids@.len() && greatest_best(
            ctx.my_dice@,
            ctx.dice_per_player,
            prev,
            bids@[i as int],
        ),
{
    if bids.len() == 0 {
        return None;
    }
    let ghost dice = ctx.my_dice@;
    let ghost opp = ctx.dice_per_player;
    let mut best: usize = 0;
    let mut best_hits = bid_chance(ctx, bids[0]).hits;
    let mut i: usize = 1;
    while i < bids.len()
        invariant
            ctx.well_formed(),
            dice == ctx.my_dice@,
            opp == ctx.dice_per_player,
            1 <= i <= bids@.len(),
            best < i,
            best_hits == chance_of(dice, opp, bids@[best as int]).hits,
            forall|j: int| 0 <= j < i ==> chance_of(dice, opp, #[trigger] bids@[j]).hits <= best_hits,
            forall|j: int| best < j < i ==> chance_of(dice, opp, #[trigger] bids@[j]).hits < best_hits,
        decreases bids@.len() - i,
    {
        let h = bid_chance(ctx, bids[i]).hits;
        if h >= best_hits {
            best = i;
            best_hits = h;
        }
        i = i + 1;
    }
    proof {
        let b = bids@[best as int];
        assert forall|c: Bid| is_next_bid(prev, c) implies chance_of(dice, opp, c).hits <= chance_of(
            dice,
            opp,
            b,
        ).hits by {
            let j = lemma_position(prev, bids@, c);
            assert(chance_of(dice, opp, bids@[j]).hits <= best_hits);
        }
        assert forall|c: Bid| is_next_bid(prev, c) && c.spec_beats(b) implies chance_of(
            dice,
            opp,
            c,
        ).hits < chance_of(dice, opp, b).hits by {
            let j = lemma_position(prev, bids@, c);
            lemma_sorted_order(prev, bids@, j, best as int);
            assert(chance_of(dice, opp, bids@[j]).hits < best_hits);
        }
    }
    Some(best)
}

/// Index of the first bid whose chance reaches `pct` percent.
pub(crate) fn first_safe_index(ctx: &Context, bids: &Vec<Bid>, pct: u64, Ghost(prev): Ghost<Option<Bid>>) -> (r:
    Option<usize>)
    requires
        ctx.well_formed(),
        lists_next_bids(prev, bids@),
    ensures
        r is None ==> none_safe(ctx.my_dice@, ctx.dice_per_player, prev, pct as nat),
        r matches Some(i) ==> i < bids@.len() && least_safe(
            ctx.my_dice@,
            ctx.dice_per_player,
            prev,
            bids@[i as int],
            pct as nat,
        ),
{
    let ghost dice = ctx.my_dice@;
    let ghost opp = ctx.dice_per_player;
    let mut i: usize = 0;
    while i < bids.len()
        invariant
            ctx.well_formed(),
            dice == ctx.my_dice@,
            opp == ctx.dice_per_player,
            i <= bids@.len(),
            lists_next_bids(prev, bids@),
            forall|j: int| 0 <= j < i ==> below_pct(chance_of(dice, opp, #[trigger] bids@[j]), pct as nat),
        decreases bids@.len() - i,
    {
        if !bid_chance(ctx, bids[i]).below_percent(pct) {
            proof {
                let b = bids@[i as int];
                assert forall|c: Bid| is_next_bid(prev, c) && b.spec_beats(c) implies below_pct(
                    chance_of(dice, opp, c),
                    pct as nat,
                ) by {
                    let j = lemma_position(prev, bids@, c);
                    lemma_sorted_order(prev, bids@, i as int, j);
                    assert(below_pct(chance_of(dice, opp, bids@[j]), pct as nat));
                }
            }
            return Some(i);
        }
        i = i + 1;
    }
    proof {
        assert forall|c: Bid| is_next_bid(prev, c) implies below_pct(chance_of(dice, opp, c), pct as nat) by {
            let j = lemma_position(prev, bids@, c);
            assert(below_pct(chance_of(dice, opp, bids@[j]), pct as nat));
        }
    }
    None
}

/// Uses exact binomial math. Challenges if P(prev bid succeeds) < 0.40.
/// Otherwise bids the highest-probability legal next bid (the smallest such
/// bid on ties), provided that bid is safer than challenging.
pub struct Calculator;

impl Strategy for Calculator {
    fn name(&self) -> (r: &str)
        ensures
            r@ == "calculator"@,
    {
        "calculator"
    }

    open spec fn may_pick(my_id: u32, my_dice: Seq<u32>, history: Seq<HistoryEntry>, dice_per_player: u32, r: Move) -> bool {
        ({
                let dice = my_dice;
                let opp = dice_per_player;
                let prev = spec_last_bid(history);
                &&& r is Challenge <==> (prev matches Some(p) && (below_pct(chance_of(dice, opp, p), 40)
                    || forall|c: Bid|
                    is_next_bid(prev, c) ==> chance_of(dice, opp, c).hits + chance_of(dice, opp, p).hits
                        < chance_of(dice, opp, p).total))
                &&& r matches Move::Bid(b) ==> least_best(dice, opp, prev, b)
            })
    }

    fn pick(&mut self, ctx: &Context) -> (r: Move)
        ensures
            ({
                let dice = ctx.my_dice@;
                let opp = ctx.dice_per_player;
                let prev = spec_last_bid(ctx.history@);
                &&& r is Challenge <==> (prev matches Some(p) && (below_pct(chance_of(dice, opp, p), 40)
                    || forall|c: Bid|
                    is_next_bid(prev, c) ==> chance_of(dice, opp, c).hits + chance_of(dice, opp, p).hits
                        < chance_of(dice, opp, p).total))
                &&& r matches Move::Bid(b) ==> least_best(dice, opp, prev, b)
            }),
    {
        proof {
            lemma_ctx_facts(ctx);
        }
        let prev = last_bid(ctx);
        let p_prev = match prev {
            Some(p) => Some(bid_chance(ctx, p)),
            None => None,  // no bid yet
        };
        // Hard challenge threshold
        if let Some(pp) = p_prev {
            if pp.below_percent(40) {
                return Move::Challenge;
            }
        }
        // Find best next bid by P(succeeds).
        let bids = legal_next_bids(prev);
        proof {
            if prev is None {
                assert(bids@.contains(Bid { quantity: 1, face: 1 }));
            }
        }
        match first_max_index(ctx, &bids, Ghost(prev)) {
            Some(i) => {
                let b = bids[i];
                let pb = bid_chance(ctx, b);
                // Challenge if our best next bid is still worse than the gamble
                // of challenging (1 - p_prev).
                if let Some(pp) = p_prev {
                    if (pb.hits as u128) + (pp.hits as u128) < (pp.total as u128) {
                        return Move::Challenge;
                    }
                }
                Move::Bid(b)
            },
            None => Move::Challenge,
        }
    }
}

/// Like Calculator but biased toward the *minimum* next bid that's still safe
/// (>= 0.55), only escalating quantity when forced.
pub struct MinimalSafe;

impl Strategy for MinimalSafe {
    fn name(&self) -> (r: &str)
        ensures
            r@ == "minimal-safe"@,
    {
        "minimal-safe"
    }

    open spec fn may_pick(my_id: u32, my_dice: Seq<u32>, history: Seq<HistoryEntry>, dice_per_player: u32, r: Move) -> bool {
        ({
                let dice = my_dice;
                let opp = dice_per_player;
                let prev = spec_last_bid(history);
                &&& r is Challenge <==> (prev matches Some(p) && (below_pct(chance_of(dice, opp, p), 35)
                    || none_safe(dice, opp, prev, 55)))
                &&& r matches Move::Bid(b) ==> (least_safe(dice, opp, prev, b, 55) || (prev is None
                    && none_safe(dice, opp, prev, 55) && greatest_best(dice, opp, prev, b)))
            })
    }

    fn pick(&mut self, ctx: &Context) -> (r: Move)
        ensures
            ({
                let dice = ctx.my_dice@;
                let opp = ctx.dice_per_player;
                let prev = spec_last_bid(ctx.history@);
                &&& r is Challenge <==> (prev matches Some(p) && (below_pct(chance_of(dice, opp, p), 35)
                    || none_safe(dice, opp, prev, 55)))
                &&& r matches Move::Bid(b) ==> (least_safe(dice, opp, prev, b, 55) || (prev is None
                    && none_safe(dice, opp, prev, 55) && greatest_best(dice, opp, prev, b)))
            }),
    {
        proof {
            lemma_ctx_facts(ctx);
        }
        let prev = last_bid(ctx);
        if let Some(p) = prev {
            if bid_chance(ctx, p).below_percent(35) {
                return Move::Challenge;
            }
        }
        // The smallest legal bid (by quantity then face) with p >= 0.55; the
        // raises come in that order already.
        let bids = legal_next_bids(prev);
        if let Some(i) = first_safe_index(ctx, &bids, 55, Ghost(prev)) {
            return Move::Bid(bids[i]);
        }
        // No safe bid — challenge if possible, else bid the safest.
        if prev.is_some() {
            Move::Challenge
        } else {
            proof {
                assert(bids@.contains(Bid { quantity: 1, face: 1 }));
            }
            match last_max_index(ctx, &bids, Ghost(prev)) {
                Some(i) => Move::Bid(bids[i]),
                None => Move::Bid(Bid { quantity: 1, face: 2 }),
            }
        }
    }
}


/// The highest face `f <= upto` of which we hold at least one literal die and
/// for which `mine_w + opp * p_match(f) >= q - 0.5`.
pub open spec fn spec_high_literal_face(dice: Seq<u32>, opp: u32, q: u32, upto: u32) -> Option<u32>
    decreases upto,
{
    if upto == 0 {
        None
    } else if spec_count_literal(dice, upto) >= 1 && 6 * spec_count_face(dice, upto) + opp * face_weight(
        upto,
    ) + 3 >= 6 * q {
        Some(upto)
    } else {
        spec_high_literal_face(dice, opp, q, (upto - 1) as u32)
    }
}

/// The highest face we literally hold whose claim at `q` is within half a die of expectation.
pub fn pick_high_literal_face(dice: &[u32], opp: u32, q: u32) -> (r: Option<u32>)
    requires
        dice@.len() + 100 <= u32::MAX,
        opp <= 24,
    ensures
        r == spec_high_literal_face(dice@, opp, q, 6),
{
    let mut f: u32 = 6;
    while f >= 1
        invariant
            f <= 6,
            dice@.len() + 100 <= u32::MAX,
            opp <= 24,
            spec_high_literal_face(dice@, opp, q, 6) == spec_high_literal_face(dice@, opp, q, f),
        decreases f,
    {
        let literal = count_literal(dice, f);
        if literal >= 1 {
            let mine_w = count_face(dice, f);
            proof {
                lemma_count_face_bounded(dice@, f);
            }
            let w: u64 = if f == 1 {
                1
            } else {
                2
            };
            if 6 * (mine_w as u64) + (opp as u64) * w + 3 >= 6 * (q as u64) {
                return Some(f);
            }
        }
        f = f - 1;
    }
    None
}

/// Mimics rafl/vst: bids on the highest face it has at least one literal
/// die of (counting wilds toward count, but switching faces only when it
/// has zero literal dice of the prev face). Challenges at `P(prev) < 0.40`.
pub struct HighSwitcher;

pub open spec fn spec_high_switcher(dice: Seq<u32>, prev: Option<Bid>, opp: u32) -> Move {
    let bf = spec_best_face(dice);
    let count_best: int = spec_count_face(dice, bf) as int;
    match prev {
        Some(p) => if below_pct(chance_of(dice, opp, p), 40) {
            Move::Challenge
        } else if spec_count_literal(dice, p.face) >= 1 {
            let mine_w = spec_count_face(dice, p.face);
            let q: int = if p.quantity + 1 >= mine_w {
                p.quantity + 1
            } else {
                mine_w as int
            };
            if q > 10 {
                Move::Challenge
            } else {
                Move::Bid(Bid { quantity: q as u32, face: p.face })
            }
        } else {
            let q: int = if p.quantity + 1 >= count_best + 1 {
                p.quantity + 1
            } else {
                count_best + 1
            };
            if q > 10 {
                Move::Challenge
            } else {
                let face = match spec_high_literal_face(dice, opp, q as u32, 6) {
                    Some(f) => f,
                    None => bf,
                };
                Move::Bid(Bid { quantity: q as u32, face })
            }
        },
        None => {
            let q = clamp(count_best + 1, 1, 10) as u32;
            let face = match spec_high_literal_face(dice, opp, q, 6) {
                Some(f) => f,
                None => bf,
            };
            Move::Bid(Bid { quantity: q, face })
        },
    }
}

impl Strategy for HighSwitcher {
    fn name(&self) -> (r: &str)
        ensures
            r@ == "high-switcher"@,
    {
        "high-switcher"
    }

    open spec fn may_pick(my_id: u32, my_dice: Seq<u32>, history: Seq<HistoryEntry>, dice_per_player: u32, r: Move) -> bool {
        r == spec_high_switcher(my_dice, spec_last_bid(history), dice_per_player)
    }

    fn pick(&mut self, ctx: &Context) -> (r: Move)
        ensures
            r == spec_high_switcher(ctx.my_dice@, spec_last_bid(ctx.history@), ctx.dice_per_player),
    {
        proof {
            lemma_ctx_facts(ctx);
        }
        let prev = last_bid(ctx);
        let opp = opp_dice(ctx);
        let dice = ctx.my_dice;
        if let Some(p) = prev {
            let mine_w = count_face(dice, p.face);
            if bid_chance(ctx, p).below_percent(40) {
                return Move::Challenge;
            }
            let literal_prev = count_literal(dice, p.face);
            if literal_prev >= 1 {
                let q = if p.quantity + 1 >= mine_w {
                    p.quantity + 1
                } else {
                    mine_w
                };
                if q > 10 {
                    return Move::Challenge;
                }
                return Move::Bid(Bid { quantity: q, face: p.face });
            }
            let bf = best_face(dice);
            let count_best = count_face(dice, bf);
            let q = if p.quantity + 1 >= count_best + 1 {
                p.quantity + 1
            } else {
                count_best + 1
            };
            if q > 10 {
                return Move::Challenge;
            }
            let face = match pick_high_literal_face(dice, opp, q) {
                Some(f) => f,
                None => bf,
            };
            return Move::Bid(Bid { quantity: q, face });
        }
        let bf = best_face(dice);
        let count_best = count_face(dice, bf);
        let q = if count_best + 1 > 10 {
            10
        } else {
            count_best + 1
        };
        let face = match pick_high_literal_face(dice, opp, q) {
            Some(f) => f,
            None => bf,
        };
        Move::Bid(Bid { quantity: q, face })
    }
}

/// The bid is fully backed by our own dice: not on ones, and we hold at least its quantity.
pub open spec fn backed(dice: Seq<u32>, b: Bid) -> bool {
    b.face != 1 && spec_count_face(dice, b.face) >= b.quantity
}

/// Mimics tliu30/qfl: bids the smallest legal `(Q, face)` where `face != 1`
/// and `own_count_with_wilds(face) >= Q`. If no legal bid is fully backed,
/// falls back to the face with max own count (face != 1) at its smallest
/// legal Q. Challenges only on near-impossible bids (`P_succ(prev) < 0.10`).
pub struct MinHonest;

impl Strategy for MinHonest {
    fn name(&self) -> (r: &str)
        ensures
            r@ == "min-honest"@,
    {
        "min-honest"
    }

    open spec fn may_pick(my_id: u32, my_dice: Seq<u32>, history: Seq<HistoryEntry>, dice_per_player: u32, r: Move) -> bool {
        ({
                let dice = my_dice;
                let opp = dice_per_player;
                let prev = spec_last_bid(history);
                let bf = spec_best_face(dice);
                &&& r is Challenge <==> (prev matches Some(p) && (below_pct(chance_of(dice, opp, p), 10)
                    || forall|c: Bid| is_next_bid(prev, c) ==> !backed(dice, c) && c.face != bf))
                &&& r matches Move::Bid(b) ==> is_next_bid(prev, b) && ((backed(dice, b) && forall|c: Bid|
                    is_next_bid(prev, c) && b.spec_beats(c) ==> !backed(dice, c)) || ((forall|c: Bid|
                    is_next_bid(prev, c) ==> !backed(dice, c)) && b.face == bf && forall|c: Bid|
                    is_next_bid(prev, c) && b.spec_beats(c) ==> c.face != bf))
            })
    }

    fn pick(&mut self, ctx: &Context) -> (r: Move)
        ensures
            ({
                let dice = ctx.my_dice@;
                let opp = ctx.dice_per_player;
                let prev = spec_last_bid(ctx.history@);
                let bf = spec_best_face(dice);
                &&& r is Challenge <==> (prev matches Some(p) && (below_pct(chance_of(dice, opp, p), 10)
                    || forall|c: Bid| is_next_bid(prev, c) ==> !backed(dice, c) && c.face != bf))
                &&& r matches Move::Bid(b) ==> is_next_bid(prev, b) && ((backed(dice, b) && forall|c: Bid|
                    is_next_bid(prev, c) && b.spec_beats(c) ==> !backed(dice, c)) || ((forall|c: Bid|
                    is_next_bid(prev, c) ==> !backed(dice, c)) && b.face == bf && forall|c: Bid|
                    is_next_bid(prev, c) && b.spec_beats(c) ==> c.face != bf))
            }),
    {
        proof {
            lemma_ctx_facts(ctx);
        }
        let ghost dice = ctx.my_dice@;
        let prev = last_bid(ctx);
        if let Some(p) = prev {
            if bid_chance(ctx, p).below_percent(10) {
                return Move::Challenge;
            }
        }
        let bids = legal_next_bids(prev);
        let mut i: usize = 0;
        while i < bids.len()
            invariant
                ctx.well_formed(),
                dice == ctx.my_dice@,
                i <= bids@.len(),
                lists_next_bids(prev, bids@),
                prev == spec_last_bid(ctx.history@),
                prev matches Some(p) ==> !below_pct(chance_of(dice, ctx.dice_per_player, p), 10),
                forall|j: int| 0 <= j < i ==> !backed(dice, #[trigger] bids@[j]),
            decreases bids@.len() - i,
        {
            let b = bids[i];
            if b.face != 1 {
                let mine = count_face(ctx.my_dice, b.face);
                if mine >= b.quantity {
                    proof {
                        assert forall|c: Bid| is_next_bid(prev, c) && b.spec_beats(c) implies !backed(
                            dice,
                            c,
                        ) by {
                            let j = lemma_position(prev, bids@, c);
                            lemma_sorted_order(prev, bids@, i as int, j);
                            assert(!backed(dice, bids@[j]));
                        }
                        assert(is_next_bid(prev, b) && backed(dice, b));
                    }
                    return Move::Bid(b);
                }
            }
            i = i + 1;
        }
        proof {
            assert forall|c: Bid| is_next_bid(prev, c) implies !backed(dice, c) by {
                let j = lemma_position(prev, bids@, c);
                assert(!backed(dice, bids@[j]));
            }
        }
        // The face with the largest own count (face != 1), first on ties.
        let best = best_face(ctx.my_dice);
        let mut i: usize = 0;
        while i < bids.len()
            invariant
                i <= bids@.len(),
                lists_next_bids(prev, bids@),
                dice == ctx.my_dice@,
                best == spec_best_face(dice),
                prev == spec_last_bid(ctx.history@),
                prev matches Some(p) ==> !below_pct(chance_of(dice, ctx.dice_per_player, p), 10),
                forall|c: Bid| is_next_bid(prev, c) ==> !backed(dice, c),
                forall|j: int| 0 <= j < i ==> (#[trigger] bids@[j]).face != best,
            decreases bids@.len() - i,
        {
            if bids[i].face == best {
                proof {
                    let b = bids@[i as int];
                    assert forall|c: Bid| is_next_bid(prev, c) && b.spec_beats(c) implies c.face != best by {
                        let j = lemma_position(prev, bids@, c);
                        lemma_sorted_order(prev, bids@, i as int, j);
                        assert(bids@[j].face != best);
                    }
                    assert(is_next_bid(prev, b) && b.face == best);
                }
                return Move::Bid(bids[i]);
            }
            i = i + 1;
        }
        proof {
            assert forall|c: Bid| is_next_bid(prev, c) implies c.face != best by {
                let j = lemma_position(prev, bids@, c);
                assert(bids@[j].face != best);
            }
            if prev is None {
                assert(is_next_bid(prev, Bid { quantity: 1, face: best }));
            }
        }
        Move::Challenge
    }
}

/// Counter to mybot-v11. Opens at (1, 2); challenges on the true chance
/// (< 0.30); while v11's we-open detector is still alive it breaks the +1
/// same-face chain; otherwise bids the smallest raise with chance >= 0.55,
/// or the most likely raise when it beats the gamble of challenging.
pub struct V11Counter;

/// `b` is a raise V11Counter may consider: when the chain must be broken,
/// not the +1 same-face raise of `p`.
pub open spec fn counter_allowed(must_break: bool, p: Bid, b: Bid) -> bool {
    !(must_break && b.face == p.face && b.quantity == p.quantity + 1)
}

impl Strategy for V11Counter {
    fn name(&self) -> (r: &str)
        ensures
            r@ == "v11-counter"@,
    {
        "v11-counter"
    }

    open spec fn may_pick(my_id: u32, my_dice: Seq<u32>, history: Seq<HistoryEntry>, dice_per_player: u32, r: Move) -> bool {
        ({
                let dice = my_dice;
                let opp = dice_per_player;
                let prev = spec_last_bid(history);
                let mb = spec_branch3_still_alive(history, my_id);
                match prev {
                    None => r == Move::Bid(Bid { quantity: 1, face: 2 }),
                    Some(p) => {
                        let pp = chance_of(dice, opp, p);
                        &&& below_pct(pp, 30) ==> r is Challenge
                        &&& r matches Move::Bid(b) ==> is_next_bid(prev, b) && counter_allowed(mb, p, b) && (
                        // the smallest allowed raise of chance at least 0.55
                        (!below_pct(chance_of(dice, opp, b), 55) && forall|c: Bid|
                            is_next_bid(prev, c) && counter_allowed(mb, p, c) && b.spec_beats(c) ==> below_pct(
                                chance_of(dice, opp, c),
                                55,
                            )) ||
                        // none such: the smallest most likely allowed raise, if it beats challenging
                        ((forall|c: Bid|
                            is_next_bid(prev, c) && counter_allowed(mb, p, c) ==> below_pct(
                                chance_of(dice, opp, c),
                                55,
                            ) && chance_of(dice, opp, c).hits <= chance_of(dice, opp, b).hits) && (forall|c: Bid|
                            is_next_bid(prev, c) && counter_allowed(mb, p, c) && b.spec_beats(c)
                                ==> chance_of(dice, opp, c).hits < chance_of(dice, opp, b).hits)
                            && chance_of(dice, opp, b).hits + pp.hits > pp.total))
                        &&& r is Challenge ==> below_pct(pp, 30) || forall|c: Bid|
                            is_next_bid(prev, c) && counter_allowed(mb, p, c) ==> below_pct(
                                chance_of(dice, opp, c),
                                55,
                            ) && chance_of(dice, opp, c).hits + pp.hits <= pp.total
                    },
                }
            })
    }

    fn pick(&mut self, ctx: &Context) -> (r: Move)
        ensures
            ({
                let dice = ctx.my_dice@;
                let opp = ctx.dice_per_player;
                let prev = spec_last_bid(ctx.history@);
                let mb = spec_branch3_still_alive(ctx.history@, ctx.my_id);
                match prev {
                    None => r == Move::Bid(Bid { quantity: 1, face: 2 }),
                    Some(p) => {
                        let pp = chance_of(dice, opp, p);
                        &&& below_pct(pp, 30) ==> r is Challenge
                        &&& r matches Move::Bid(b) ==> is_next_bid(prev, b) && counter_allowed(mb, p, b) && (
                        // the smallest allowed raise of chance at least 0.55
                        (!below_pct(chance_of(dice, opp, b), 55) && forall|c: Bid|
                            is_next_bid(prev, c) && counter_allowed(mb, p, c) && b.spec_beats(c) ==> below_pct(
                                chance_of(dice, opp, c),
                                55,
                            )) ||
                        // none such: the smallest most likely allowed raise, if it beats challenging
                        ((forall|c: Bid|
                            is_next_bid(prev, c) && counter_allowed(mb, p, c) ==> below_pct(
                                chance_of(dice, opp, c),
                                55,
                            ) && chance_of(dice, opp, c).hits <= chance_of(dice, opp, b).hits) && (forall|c: Bid|
                            is_next_bid(prev, c) && counter_allowed(mb, p, c) && b.spec_beats(c)
                                ==> chance_of(dice, opp, c).hits < chance_of(dice, opp, b).hits)
                            && chance_of(dice, opp, b).hits + pp.hits > pp.total))
                        &&& r is Challenge ==> below_pct(pp, 30) || forall|c: Bid|
                            is_next_bid(prev, c) && counter_allowed(mb, p, c) ==> below_pct(
                                chance_of(dice, opp, c),
                                55,
                            ) && chance_of(dice, opp, c).hits + pp.hits <= pp.total
                    },
                }
            }),
    {
        proof {
            lemma_ctx_facts(ctx);
        }
        let ghost dice = ctx.my_dice@;
        let ghost opp = ctx.dice_per_player;
        let prev = match last_bid(ctx) {
            None => return Move::Bid(Bid { quantity: 1, face: 2 }),
            Some(p) => p,
        };
        // Challenge on true probability, not v11's anchored estimate.
        let p_prev = bid_chance(ctx, prev);
        if p_prev.below_percent(30) {
            return Move::Challenge;
        }
        // Branch 3 is still alive iff v11 opened and every one of our prior
        // bids has been +1 on the running prev face. If alive, our next bid
        // must break the pattern — face-switch or skip Q.
        let must_break_chain = branch3_still_alive(ctx);
        let bids = legal_next_bids(Some(prev));
        let ghost sp = Some(prev);
        let mut safe_best: Option<usize> = None;
        let mut fallback_best: Option<usize> = None;
        let mut fb_hits: u64 = 0;
        let mut i: usize = 0;
        while i < bids.len()
            invariant
                ctx.well_formed(),
                dice == ctx.my_dice@,
                opp == ctx.dice_per_player,
                i <= bids@.len(),
                lists_next_bids(sp, bids@),
                safe_best matches Some(s) ==> s < i && counter_allowed(must_break_chain, prev, bids@[s as int])
                    && !below_pct(chance_of(dice, opp, bids@[s as int]), 55) && forall|j: int|
                    0 <= j < s && counter_allowed(must_break_chain, prev, #[trigger] bids@[j]) ==> below_pct(
                        chance_of(dice, opp, bids@[j]),
                        55,
                    ),
                safe_best is None ==> forall|j: int|
                    0 <= j < i && counter_allowed(must_break_chain, prev, #[trigger] bids@[j]) ==> below_pct(
                        chance_of(dice, opp, bids@[j]),
                        55,
                    ),
                fallback_best matches Some(fb) ==> fb < i && counter_allowed(
                    must_break_chain,
                    prev,
                    bids@[fb as int],
                ) && fb_hits == chance_of(dice, opp, bids@[fb as int]).hits && (forall|j: int|
                    0 <= j < i && counter_allowed(must_break_chain, prev, #[trigger] bids@[j])
                        ==> chance_of(dice, opp, bids@[j]).hits <= fb_hits) && (forall|j: int|
                    0 <= j < fb && counter_allowed(must_break_chain, prev, #[trigger] bids@[j])
                        ==> chance_of(dice, opp, bids@[j]).hits < fb_hits),
                fallback_best is None ==> forall|j: int|
                    0 <= j < i ==> !counter_allowed(must_break_chain, prev, #[trigger] bids@[j]),
            decreases bids@.len() - i,
        {
            let b = bids[i];
            if !(must_break_chain && b.face == prev.face && b.quantity as u64 == prev.quantity as u64 + 1) {
                let p = bid_chance(ctx, b);
                if !p.below_percent(55) {
                    if safe_best.is_none() {
                        safe_best = Some(i);
                    }
                }
                match fallback_best {
                    None => {
                        fallback_best = Some(i);
                        fb_hits = p.hits;
                    },
                    Some(_) => {
                        if p.hits > fb_hits {
                            fallback_best = Some(i);
                            fb_hits = p.hits;
                        }
                    },
                }
            }
            i = i + 1;
        }
        if let Some(s) = safe_best {
            proof {
                let b = bids@[s as int];
                assert forall|c: Bid|
                    is_next_bid(sp, c) && counter_allowed(must_break_chain, prev, c) && b.spec_beats(
                        c,
                    ) implies below_pct(chance_of(dice, opp, c), 55) by {
                    let j = lemma_position(sp, bids@, c);
                    lemma_sorted_order(sp, bids@, s as int, j);
                    assert(counter_allowed(must_break_chain, prev, bids@[j]));
                }
            }
            return Move::Bid(bids[s]);
        }
        proof {
            assert forall|c: Bid| is_next_bid(sp, c) && counter_allowed(must_break_chain, prev, c) implies below_pct(
                chance_of(dice, opp, c),
                55,
            ) by {
                let j = lemma_position(sp, bids@, c);
                assert(counter_allowed(must_break_chain, prev, bids@[j]));
            }
        }
        match fallback_best {
            Some(fb) => {
                proof {
                    let b = bids@[fb as int];
                    assert forall|c: Bid|
                        is_next_bid(sp, c) && counter_allowed(must_break_chain, prev, c) implies chance_of(
                            dice,
                            opp,
                            c,
                        ).hits <= fb_hits by {
                        let j = lemma_position(sp, bids@, c);
                        assert(counter_allowed(must_break_chain, prev, bids@[j]));
                    }
                    assert forall|c: Bid|
                        is_next_bid(sp, c) && counter_allowed(must_break_chain, prev, c) && b.spec_beats(
                            c,
                        ) implies chance_of(dice, opp, c).hits < fb_hits by {
                        let j = lemma_position(sp, bids@, c);
                        lemma_sorted_order(sp, bids@, fb as int, j);
                        assert(counter_allowed(must_break_chain, prev, bids@[j]));
                    }
                }
                if (fb_hits as u128) + (p_prev.hits as u128) > (p_prev.total as u128) {
                    Move::Bid(bids[fb])
                } else {
                    Move::Challenge
                }
            },
            None => {
                proof {
                    assert forall|c: Bid| is_next_bid(sp, c) && counter_allowed(must_break_chain, prev, c) implies false by {
                        let j = lemma_position(sp, bids@, c);
                    }
                }
                Move::Challenge
            },
        }
    }
}

/// Two players that always challenge: the first opens with one six, the
/// second challenges it at once.
pub proof fn lemma_two_challengers(r: MatchResult, a_dice: Seq<u32>, b_dice: Seq<u32>)
    requires
        round_record::<AlwaysChallenge, AlwaysChallenge>(r, a_dice, b_dice),
    ensures
        r.final_bid == Some(Bid { quantity: 1, face: 6 }),
        r.challenger_id == 1,
        r.history@.len() == 2,
{
    let h = r.history@;
    let p = r.picks@;
    assert(round_entry::<AlwaysChallenge, AlwaysChallenge>(a_dice, b_dice, h, p, 0));
    assert(h.take(0) =~= Seq::<HistoryEntry>::empty());
    assert(h[0].mv == Move::Bid(Bid { quantity: 1, face: 6 }));
    assert(round_entry::<AlwaysChallenge, AlwaysChallenge>(a_dice, b_dice, h, p, 1));
    assert(h.take(1) =~= seq![h[0]]);
    assert(spec_last_bid(h.take(1)) == Some(Bid { quantity: 1, face: 6 })) by {
        assert(h.take(1).drop_last() =~= Seq::<HistoryEntry>::empty());
    }
    assert(h[1].mv == Move::Challenge);
    assert(h.len() == 2);
    assert(h.drop_last() =~= seq![h[0]]);
    assert(h.drop_last().drop_last() =~= Seq::<HistoryEntry>::empty());
}

/// The face raiser's raise: when a bid stands on a face below six and it does
/// not challenge, it keeps the bid's quantity and names the next face up,
/// the least raise there is.
pub proof fn lemma_face_raiser_raises_the_face(dice: Seq<u32>, p: Bid, opp: u32, r: Move)
    requires
        r == spec_face_raiser(dice, Some(p), opp),
        p.face < 6,
        r is Bid,
    ensures
        r == Move::Bid(Bid { quantity: p.quantity, face: (p.face + 1) as u32 }),
        r->0.spec_beats(p),
        forall|c: Bid| #[trigger] c.spec_beats(p) ==> c == r->0 || c.spec_beats(r->0),
{
}

} // verus!
