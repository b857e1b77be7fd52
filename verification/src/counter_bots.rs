//! House bots seven to ten: counters built on the third and fifth bots.
//! The seventh simulates a copycat opponent; the eighth opens one higher on a
//! pair; the ninth rides a copycat chain; the tenth fingerprints an opponent
//! that opens honestly and raises by one.
use crate::archetypes::{detect_high_opening, opp_is_copycat_like, others_bids_from, others_climb_from, spec_detect_high_opening};
use crate::bidding::{best_face, last_bid, spec_best_face};
use crate::chance::{face_weight, exactly};
use crate::dice::{count_face, spec_count_face, spec_last_bid, Bid, Context, HistoryEntry, Move, Strategy};
use crate::face_bots::{
    lemma_uc_entries, uc_table, v3_challenges, v3_decision, v3_decision_at, v5_decision, FaceTables, MyBotV3, MyBotV5,
};
use crate::liar_players::lemma_ctx_facts;
use rand::rngs::StdRng;
use vstd::prelude::*;

verus! {

// ---------------------------------------------------------------- the seventh bot

/// The quantity of the opponent's first bid on `face` from entry `i` on.
pub open spec fn first_opp_q_from(h: Seq<HistoryEntry>, me: u32, face: u32, i: int) -> Option<u32>
    decreases h.len() - i,
{
    if i < 0 || i >= h.len() {
        None
    } else {
        match h[i].mv {
            Move::Bid(b) => if h[i].player_id != me && b.face == face {
                Some(b.quantity)
            } else {
                first_opp_q_from(h, me, face, i + 1)
            },
            Move::Challenge => first_opp_q_from(h, me, face, i + 1),
        }
    }
}

/// The quantity of the opponent's first bid on `face`.
pub open spec fn first_opp_q(h: Seq<HistoryEntry>, me: u32, face: u32) -> Option<u32> {
    first_opp_q_from(h, me, face, 0)
}

/// Weight, in twentieths, of the opponent holding `k` of a face it first bid
/// at `q`: 11 at `q`, 3 one away, 1 two away.
pub open spec fn near_weight(q: int, k: int) -> nat {
    let d = if k >= q {
        k - q
    } else {
        q - k
    };
    if d == 0 {
        11
    } else if d == 1 {
        3
    } else if d == 2 {
        1
    } else {
        0
    }
}

/// The seventh bot's (unnormalized) belief that the opponent holds `k` of
/// `face`: around its first bid on the face, else the no-signal weights.
pub open spec fn counter_weight(h: Seq<HistoryEntry>, me: u32, face: u32, k: int) -> nat {
    match first_opp_q(h, me, face) {
        Some(q) => near_weight(q as int, k),
        None => uc_table(face)[k] as nat,
    }
}

/// Against a copycat that challenges once a bid is three above its count (or
/// at ten), starting with the copycat to move on quantity `q`, whether we win
/// by raising one each turn on the same face.
pub open spec fn copycat_line_wins(c_me: int, c_opp: int, q: int) -> bool
    decreases 10 - q,
{
    if q >= c_opp + 3 || q == 10 {
        q <= c_me + c_opp
    } else if q + 2 > 10 {
        false
    } else {
        copycat_line_wins(c_me, c_opp, q + 2)
    }
}

/// What we do in the simulated line: challenge, or bid this quantity.
#[derive(Clone, Copy, Debug, PartialEq, Eq, Structural)]
pub enum SimMove {
    Challenge,
    Bid(u32),
}

/// Whether our action wins against a copycat holding `c_opp` when the last
/// bid's quantity is `prev_q`.
pub open spec fn sim_wins(c_me: int, c_opp: int, action: SimMove, prev_q: int) -> bool {
    match action {
        SimMove::Challenge => prev_q > c_me + c_opp,
        SimMove::Bid(q) => copycat_line_wins(c_me, c_opp, q as int),
    }
}

/// Plays the copycat line forward.
pub fn simulate(c_me: u32, c_opp: u32, my_action: SimMove, prev_q: u32) -> (r: bool)
    ensures
        r == sim_wins(c_me as int, c_opp as int, my_action, prev_q as int),
{
    match my_action {
        SimMove::Challenge => (prev_q as u64) > (c_me as u64) + (c_opp as u64),
        SimMove::Bid(q_new) => {
            let mut q: u64 = q_new as u64;
            if q > 10 {
                // the copycat folds at once, or cannot raise past ten
                return q >= (c_opp as u64) + 3 && q <= (c_me as u64) + (c_opp as u64);
            }
            loop
                invariant
                    q <= 10,
                    my_action == SimMove::Bid(q_new),
                    copycat_line_wins(c_me as int, c_opp as int, q as int) == copycat_line_wins(
                        c_me as int,
                        c_opp as int,
                        q_new as int,
                    ),
                decreases 10 - q,
            {
                // the copycat's turn: it challenges, or raises one and we raise one
                if q >= (c_opp as u64) + 3 || q == 10 {
                    return q <= (c_me as u64) + (c_opp as u64);
                }
                if q + 2 > 10 {
                    return false;
                }
                q = q + 2;
            }
        },
    }
}

/// The value (in weight) of an action: the weight of the opponent counts
/// against which it wins.
pub open spec fn action_value(h: Seq<HistoryEntry>, me: u32, face: u32, c_me: int, action: SimMove, prev_q: int, n: int) -> nat
    decreases n,
{
    if n <= 0 {
        0
    } else {
        action_value(h, me, face, c_me, action, prev_q, n - 1) + if sim_wins(c_me, n - 1, action, prev_q) {
            counter_weight(h, me, face, n - 1)
        } else {
            0
        }
    }
}

/// The opponent has bid some face from one to six.
pub open spec fn any_opp_bid(h: Seq<HistoryEntry>, me: u32) -> bool {
    exists|f: u32| 1 <= f <= 6 && first_opp_q(h, me, f) is Some
}

/// The seventh bot's decision once there is a last bid `p` and the opponent
/// has bid: raise one on `p`'s face when that wins more weight than
/// challenging, else challenge.
pub open spec fn v7_choice(ctx: &Context, p: Bid) -> Move {
    let h = ctx.history@;
    let c_me = spec_count_face(ctx.my_dice@, p.face) as int;
    let bid = SimMove::Bid((p.quantity + 1) as u32);
    if action_value(h, ctx.my_id, p.face, c_me, bid, p.quantity as int, 6) > action_value(
        h,
        ctx.my_id,
        p.face,
        c_me,
        SimMove::Challenge,
        p.quantity as int,
        6,
    ) {
        Move::Bid(Bid { quantity: (p.quantity + 1) as u32, face: p.face })
    } else {
        Move::Challenge
    }
}

fn first_opp_quantity(ctx: &Context, face: u32) -> (r: Option<u32>)
    ensures
        r == first_opp_q(ctx.history@, ctx.my_id, face),
{
    let h = ctx.history;
    let mut i: usize = 0;
    while i < h.len()
        invariant
            i <= h@.len(),
            h@ == ctx.history@,
            first_opp_q(h@, ctx.my_id, face) == first_opp_q_from(h@, ctx.my_id, face, i as int),
        decreases h@.len() - i,
    {
        if let Move::Bid(b) = h[i].mv {
            if h[i].player_id != ctx.my_id && b.face == face {
                return Some(b.quantity);
            }
        }
        i = i + 1;
    }
    None
}

fn weight_of(ctx: &Context, face: u32, first: Option<u32>, k: u32, tables: &FaceTables) -> (r: u64)
    requires
        1 <= face <= 6,
        k < 6,
        first == first_opp_q(ctx.history@, ctx.my_id, face),
    ensures
        r == counter_weight(ctx.history@, ctx.my_id, face, k as int),
        r <= 7776,
{
    match first {
        Some(q) => {
            let d: u64 = if (k as u64) >= (q as u64) {
                k as u64 - q as u64
            } else {
                q as u64 - k as u64
            };
            if d == 0 {
                11
            } else if d == 1 {
                3
            } else if d == 2 {
                1
            } else {
                0
            }
        },
        None => {
            proof {
                lemma_uc_entries(face, k as int);
            }
            tables.uncond(face)[k as usize]
        },
    }
}

fn value_of(ctx: &Context, face: u32, c_me: u32, action: SimMove, prev_q: u32, tables: &FaceTables) -> (r: u64)
    requires
        1 <= face <= 6,
    ensures
        r == action_value(ctx.history@, ctx.my_id, face, c_me as int, action, prev_q as int, 6),
{
    let first = first_opp_quantity(ctx, face);
    let mut v: u64 = 0;
    let mut k: u32 = 0;
    while k < 6
        invariant
            k <= 6,
            1 <= face <= 6,
            first == first_opp_q(ctx.history@, ctx.my_id, face),
            v == action_value(ctx.history@, ctx.my_id, face, c_me as int, action, prev_q as int, k as int),
            v <= 7776 * k,
        decreases 6 - k,
    {
        if simulate(c_me, k, action, prev_q) {
            let w = weight_of(ctx, face, first, k, tables);
            v = v + w;
        }
        k = k + 1;
    }
    v
}

fn any_opp_bid_exec(ctx: &Context) -> (r: bool)
    ensures
        r == any_opp_bid(ctx.history@, ctx.my_id),
{
    let mut f: u32 = 1;
    while f <= 6
        invariant
            1 <= f <= 7,
            forall|g: u32| 1 <= g < f ==> first_opp_q(ctx.history@, ctx.my_id, g) is None,
        decreases 7 - f,
    {
        if first_opp_quantity(ctx, f).is_some() {
            return true;
        }
        f = f + 1;
    }
    false
}

/// Counters a copycat: against the opponent's count of the last bid's face,
/// believed to sit near its first bid on that face, compares challenging
/// with riding one above; falls back to the fifth bot when there is no last
/// bid or no opponent bid.
pub struct MyBotV7 {
    pub fallback: MyBotV5,
}

impl MyBotV7 {
    /// The bot, drawing what it leaves to chance from `rng`.
    pub fn new(rng: StdRng) -> (r: Self)
        ensures
            r.fallback._rng == rng,
    {
        MyBotV7 { fallback: MyBotV5::new(rng) }
    }
}

impl Strategy for MyBotV7 {
    fn name(&self) -> (r: &str)
        ensures
            r@ == "mybot-v7"@,
    {
        "mybot-v7"
    }

    fn pick(&mut self, ctx: &Context) -> (r: Move)
        ensures
            match spec_last_bid(ctx.history@) {
                Some(p) => if any_opp_bid(ctx.history@, ctx.my_id) {
                    r == v7_choice(ctx, p)
                } else {
                    v5_decision(ctx, r)
                },
                None => v5_decision(ctx, r),
            },
    {
        proof {
            lemma_ctx_facts(ctx);
        }
        let prev = match last_bid(ctx) {
            Some(p) => p,
            None => {
                return self.fallback.pick(ctx);
            },
        };
        if !any_opp_bid_exec(ctx) {
            return self.fallback.pick(ctx);
        }
        let face = prev.face;
        let c_me = count_face(ctx.my_dice, face);
        let tables = &self.fallback.tables;
        let v_challenge = value_of(ctx, face, c_me, SimMove::Challenge, prev.quantity, tables);
        let v_ride = value_of(ctx, face, c_me, SimMove::Bid(prev.quantity + 1), prev.quantity, tables);
        if v_ride > v_challenge {
            Move::Bid(Bid { quantity: prev.quantity + 1, face: prev.face })
        } else {
            Move::Challenge
        }
    }
}

// ---------------------------------------------------------------- the eighth bot

/// The eighth bot's opening: its count of its best face on that face, one
/// more when the count is two.
pub open spec fn v8_opening(dice: Seq<u32>) -> Move {
    let f = spec_best_face(dice);
    let c = spec_count_face(dice, f);
    Move::Bid(
        Bid {
            quantity: if c == 2 {
                3
            } else if c >= 1 {
                c as u32
            } else {
                1
            },
            face: f,
        },
    )
}

/// The third bot with a stronger opening.
pub struct MyBotV8 {
    pub inner: MyBotV3,
}

impl MyBotV8 {
    /// The bot, drawing what it leaves to chance from `rng`.
    pub fn new(rng: StdRng) -> (r: Self)
        ensures
            r.inner._rng == rng,
    {
        MyBotV8 { inner: MyBotV3::new(rng) }
    }
}

impl Strategy for MyBotV8 {
    fn name(&self) -> (r: &str)
        ensures
            r@ == "mybot-v8"@,
    {
        "mybot-v8"
    }

    fn pick(&mut self, ctx: &Context) -> (r: Move)
        ensures
            spec_last_bid(ctx.history@) is None ==> r == v8_opening(ctx.my_dice@),
            spec_last_bid(ctx.history@) is Some ==> v3_decision(ctx, r),
    {
        if last_bid(ctx).is_none() {
            let f = best_face(ctx.my_dice);
            let c = count_face(ctx.my_dice, f);
            let q = if c == 2 {
                3
            } else if c >= 1 {
                c
            } else {
                1
            };
            return Move::Bid(Bid { quantity: q, face: f });
        }
        self.inner.pick(ctx)
    }
}

// ---------------------------------------------------------------- the ninth bot

/// Every opponent bid raised the bid before it by one on its face, and the
/// opponent has bid.
pub open spec fn copycat_like(h: Seq<HistoryEntry>, me: u32) -> bool {
    others_climb_from(h, 0, None, me) && others_bids_from(h, 0, me) >= 1
}

/// The ninth bot overrides the third bot's challenge: against a copycat-like
/// opponent, holding three or more of the last bid's face below ten.
pub open spec fn v9_rides(ctx: &Context, p: Bid) -> bool {
    &&& v3_challenges(ctx)
    &&& copycat_like(ctx.history@, ctx.my_id)
    &&& spec_count_face(ctx.my_dice@, p.face) >= 3
    &&& p.quantity < 10
}

/// The third bot that keeps riding a copycat chain when it holds many of the face.
pub struct MyBotV9 {
    pub inner: MyBotV3,
}

impl MyBotV9 {
    /// The bot, drawing what it leaves to chance from `rng`.
    pub fn new(rng: StdRng) -> (r: Self)
        ensures
            r.inner._rng == rng,
    {
        MyBotV9 { inner: MyBotV3::new(rng) }
    }
}

impl Strategy for MyBotV9 {
    fn name(&self) -> (r: &str)
        ensures
            r@ == "mybot-v9"@,
    {
        "mybot-v9"
    }

    fn pick(&mut self, ctx: &Context) -> (r: Move)
        ensures
            match spec_last_bid(ctx.history@) {
                None => r == crate::face_bots::smart_opening(ctx.my_dice@),
                Some(p) => if v9_rides(ctx, p) {
                    r == Move::Bid(Bid { quantity: (p.quantity + 1) as u32, face: p.face })
                } else {
                    v3_decision(ctx, r)
                },
            },
    {
        proof {
            lemma_ctx_facts(ctx);
        }
        let prev = match last_bid(ctx) {
            Some(p) => p,
            None => {
                return crate::face_bots::open_smart(ctx);
            },
        };
        let inner_move = self.inner.pick(ctx);
        if inner_move == Move::Challenge && opp_is_copycat_like(ctx) {
            let my_count = count_face(ctx.my_dice, prev.face);
            if my_count >= 3 && prev.quantity < 10 {
                return Move::Bid(Bid { quantity: prev.quantity + 1, face: prev.face });
            }
        }
        inner_move
    }
}

// ---------------------------------------------------------------- the tenth bot

/// The opponent's count of its opening face as estimated from its opening
/// quantity: the count itself up to three, three at four, two less above.
pub open spec fn est_c_opp(open_q: u32) -> int {
    if open_q <= 3 {
        open_q as int
    } else if open_q == 4 {
        3
    } else {
        open_q - 2
    }
}

/// Our face other than `skip` among one..=`upto` with the most supporting
/// dice, at least four (the lowest such face on ties), with its count.
pub open spec fn switch_face(dice: Seq<u32>, skip: u32, upto: u32) -> Option<(u32, u32)>
    decreases upto,
{
    if upto == 0 {
        None
    } else {
        let prev = switch_face(dice, skip, (upto - 1) as u32);
        let c = spec_count_face(dice, upto);
        if upto == skip || c < 4 {
            prev
        } else {
            match prev {
                None => Some((c as u32, upto)),
                Some((bc, bf)) => if c > bc {
                    Some((c as u32, upto))
                } else {
                    prev
                },
            }
        }
    }
}

/// The quantity of a face switch: one above our count, at least one above
/// the last bid, at most ten.
pub open spec fn switch_quantity(c_f: u32, p: Bid) -> int {
    let a = if c_f + 1 > p.quantity + 1 {
        c_f + 1
    } else {
        p.quantity + 1
    };
    if a > 10 {
        10
    } else {
        a
    }
}

/// The tenth bot's move against an honest opener on its opening face: switch
/// to a face of ours of four or more when the opening was four or more and
/// the switch is legal; else raise by one while our count plus the estimate
/// covers the last bid, else challenge.
pub open spec fn v10_counter(dice: Seq<u32>, p: Bid, open_q: u32) -> Move {
    let c_me = spec_count_face(dice, p.face) as int;
    let ride = if c_me + est_c_opp(open_q) >= p.quantity && p.quantity < 10 {
        Move::Bid(Bid { quantity: (p.quantity + 1) as u32, face: p.face })
    } else {
        Move::Challenge
    };
    if open_q >= 4 {
        match switch_face(dice, p.face, 6) {
            Some((c_f, f)) => {
                let t = switch_quantity(c_f, p);
                if t > p.quantity || (t == p.quantity && f > p.face) {
                    Move::Bid(Bid { quantity: t as u32, face: f })
                } else {
                    ride
                }
            },
            None => ride,
        }
    } else {
        ride
    }
}

/// The tenth bot's decision: the counter on the opening face of an opponent
/// that opened honestly and raises by one, else the third bot's.
pub open spec fn v10_decision_at(dice: Seq<u32>, opp: u32, h: Seq<HistoryEntry>, me: u32, r: Move) -> bool {
    match (spec_last_bid(h), spec_detect_high_opening(h, me)) {
        (Some(p), Some((open_q, open_f))) => if p.face == open_f {
            r == v10_counter(dice, p, open_q)
        } else {
            v3_decision_at(dice, opp, h, me, r)
        },
        _ => v3_decision_at(dice, opp, h, me, r),
    }
}

pub open spec fn v10_decision(ctx: &Context, r: Move) -> bool {
    v10_decision_at(ctx.my_dice@, ctx.dice_per_player, ctx.history@, ctx.my_id, r)
}

fn best_switch(dice: &[u32], skip: u32) -> (r: Option<(u32, u32)>)
    requires
        dice@.len() <= u32::MAX,
    ensures
        r == switch_face(dice@, skip, 6),
{
    let mut best: Option<(u32, u32)> = None;
    let mut f: u32 = 1;
    while f <= 6
        invariant
            1 <= f <= 7,
            dice@.len() <= u32::MAX,
            best == switch_face(dice@, skip, (f - 1) as u32),
        decreases 7 - f,
    {
        if f != skip {
            let c_f = count_face(dice, f);
            if c_f >= 4 {
                match best {
                    None => {
                        best = Some((c_f, f));
                    },
                    Some((bc, _)) => {
                        if c_f > bc {
                            best = Some((c_f, f));
                        }
                    },
                }
            }
        }
        f = f + 1;
    }
    best
}

/// Fingerprints an opponent that opened the round at three or more and raised
/// by one since, reads its count off the opening, and counters on the
/// opening face; otherwise plays as the third bot.
pub struct MyBotV10 {
    pub fallback: MyBotV3,
}

impl MyBotV10 {
    /// The bot, drawing what it leaves to chance from `rng`.
    pub fn new(rng: StdRng) -> (r: Self)
        ensures
            r.fallback._rng == rng,
    {
        MyBotV10 { fallback: MyBotV3::new(rng) }
    }
}

impl Strategy for MyBotV10 {
    fn name(&self) -> (r: &str)
        ensures
            r@ == "mybot-v10"@,
    {
        "mybot-v10"
    }

    open spec fn may_pick(my_id: u32, my_dice: Seq<u32>, history: Seq<HistoryEntry>, dice_per_player: u32, r: Move) -> bool {
        v10_decision_at(my_dice, dice_per_player, history, my_id, r)
    }

    fn pick(&mut self, ctx: &Context) -> (r: Move)
        ensures
            v10_decision(ctx, r),
    {
        proof {
            lemma_ctx_facts(ctx);
        }
        let prev = match last_bid(ctx) {
            Some(p) => p,
            None => {
                return self.fallback.pick(ctx);
            },
        };
        let (open_q, open_f) = match detect_high_opening(ctx) {
            Some(x) => x,
            None => {
                return self.fallback.pick(ctx);
            },
        };
        if prev.face != open_f {
            return self.fallback.pick(ctx);
        }
        let c_me = count_face(ctx.my_dice, prev.face);
        let c_opp_est: u32 = if open_q <= 3 {
            open_q
        } else if open_q == 4 {
            3
        } else {
            open_q - 2
        };
        if open_q >= 4 {
            if let Some((c_f, f)) = best_switch(ctx.my_dice, prev.face) {
                let a: u64 = if (c_f as u64) + 1 > (prev.quantity as u64) + 1 {
                    (c_f as u64) + 1
                } else {
                    (prev.quantity as u64) + 1
                };
                let target_q: u32 = if a > 10 {
                    10
                } else {
                    a as u32
                };
                let legal = target_q > prev.quantity || (target_q == prev.quantity && f > prev.face);
                if legal {
                    return Move::Bid(Bid { quantity: target_q, face: f });
                }
            }
        }
        if (c_me as u64) + (c_opp_est as u64) >= prev.quantity as u64 && prev.quantity < 10 {
            Move::Bid(Bid { quantity: prev.quantity + 1, face: prev.face })
        } else {
            Move::Challenge
        }
    }
}

} // verus!
