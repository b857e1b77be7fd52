//! The first two house bots for Liar's Dice: exact chances, a challenge
//! threshold (fixed, or moved by how far the opponent has been overbidding),
//! and the least raise of greatest chance.
use crate::bidding::{is_next_bid, last_bid, legal_next_bids};
use crate::chance::{below_pct, Chance};
use crate::dice::{spec_last_bid, Bid, Context, HistoryEntry, Move, Strategy};
use crate::liar_players::{bid_chance, chance_of, first_max_index, lemma_ctx_facts, least_best};
use rand::rngs::StdRng;
use vstd::prelude::*;

verus! {

/// Our best raise falls more than five points short of the chance that a
/// challenge of `p` wins: `best < 1 - P(p) - 0.05`.
pub open spec fn short_of_challenge(best: Chance, p: Chance) -> bool {
    20 * (best.hits + p.hits) < 19 * p.total
}

/// The decision the house bots share once the last bid is judged: challenge a
/// weak last bid; else the least raise of greatest chance, unless even that
/// falls short of challenging.
pub open spec fn house_move(dice: Seq<u32>, opp: u32, prev: Option<Bid>, weak: bool, r: Move) -> bool {
    &&& r is Challenge <==> (prev matches Some(p) && (weak || forall|c: Bid|
        is_next_bid(prev, c) ==> short_of_challenge(chance_of(dice, opp, c), chance_of(dice, opp, p))))
    &&& r matches Move::Bid(b) ==> least_best(dice, opp, prev, b)
}

fn house_decision(ctx: &Context, prev: Option<Bid>, weak: bool) -> (r: Move)
    requires
        ctx.well_formed(),
        prev == spec_last_bid(ctx.history@),
        prev is None ==> !weak,
    ensures
        house_move(ctx.my_dice@, ctx.dice_per_player, prev, weak, r),
{
    proof {
        lemma_ctx_facts(ctx);
    }
    if weak {
        return Move::Challenge;
    }
    let bids = legal_next_bids(prev);
    proof {
        if prev is None {
            assert(bids@.contains(Bid { quantity: 1, face: 1 }));
        }
    }
    match first_max_index(ctx, &bids, Ghost(prev)) {
        None => Move::Challenge,
        Some(i) => {
            let b = bids[i];
            match prev {
                None => Move::Bid(b),
                Some(p) => {
                    let pb = bid_chance(ctx, b);
                    let pp = bid_chance(ctx, p);
                    if 20 * ((pb.hits as u128) + (pp.hits as u128)) < 19 * (pp.total as u128) {
                        Move::Challenge
                    } else {
                        Move::Bid(b)
                    }
                },
            }
        },
    }
}

/// Challenges a last bid that holds with less than 45%; otherwise bids the
/// least raise of greatest chance unless that falls short of challenging.
pub struct MyBot {
    pub _rng: StdRng,
}

impl MyBot {
    /// The bot, drawing what it leaves to chance from `rng`.
    pub fn new(rng: StdRng) -> (r: Self)
        ensures
            r._rng == rng,
    {
        MyBot { _rng: rng }
    }
}

impl Strategy for MyBot {
    fn name(&self) -> (r: &str)
        ensures
            r@ == "mybot-v1"@,
    {
        "mybot-v1"
    }

    open spec fn may_pick(my_id: u32, my_dice: Seq<u32>, history: Seq<HistoryEntry>, dice_per_player: u32, r: Move) -> bool {
        house_move(
                my_dice,
                dice_per_player,
                spec_last_bid(history),
                spec_last_bid(history) matches Some(p) && below_pct(
                    chance_of(my_dice, dice_per_player, p),
                    45,
                ),
                r,
            )
    }

    fn pick(&mut self, ctx: &Context) -> (r: Move)
        ensures
            house_move(
                ctx.my_dice@,
                ctx.dice_per_player,
                spec_last_bid(ctx.history@),
                spec_last_bid(ctx.history@) matches Some(p) && below_pct(
                    chance_of(ctx.my_dice@, ctx.dice_per_player, p),
                    45,
                ),
                r,
            ),
    {
        proof {
            lemma_ctx_facts(ctx);
        }
        let prev = last_bid(ctx);
        let weak = match prev {
            Some(p) => bid_chance(ctx, p).below_percent(45),
            None => false,
        };
        house_decision(ctx, prev, weak)
    }
}

/// Six times how far an opponent bid's quantity exceeds the number of ten
/// dice expected to support its face: `6q - 10w`.
pub open spec fn overshoot_of(b: Bid) -> int {
    6 * b.quantity - if b.face == 1 {
        10int
    } else {
        20int
    }
}

/// Sum of the overshoots of the opponent's bids in `h`.
pub open spec fn overshoot(h: Seq<HistoryEntry>, me: u32) -> int
    decreases h.len(),
{
    if h.len() == 0 {
        0
    } else {
        overshoot(h.drop_last(), me) + match h.last().mv {
            Move::Bid(b) if h.last().player_id != me => overshoot_of(b),
            _ => 0,
        }
    }
}

/// Number of the opponent's bids in `h`.
pub open spec fn opp_bids(h: Seq<HistoryEntry>, me: u32) -> nat
    decreases h.len(),
{
    if h.len() == 0 {
        0
    } else {
        opp_bids(h.drop_last(), me) + match h.last().mv {
            Move::Bid(_) if h.last().player_id != me => 1nat,
            _ => 0nat,
        }
    }
}

/// `c` is below the challenge threshold moved by the opponent's bluffing:
/// 45% plus its mean overshoot per hidden die (`s / (6 * opp * n)`), that
/// shift clamped to -10..=+20 points; with no opponent bid, 45%.
pub open spec fn below_adjusted(c: Chance, s: int, n: nat, opp: u32) -> bool {
    let d = 6 * opp * n;
    if n == 0 {
        below_pct(c, 45)
    } else if d == 0 {
        if s > 0 {
            below_pct(c, 65)
        } else {
            below_pct(c, 35)
        }
    } else if 10 * s < -d {
        below_pct(c, 35)
    } else if 5 * s > d {
        below_pct(c, 65)
    } else {
        100 * c.hits * d < 45 * c.total * d + 100 * c.total * s
    }
}

fn overshoot_total(ctx: &Context) -> (r: (i128, u64))
    requires
        ctx.well_formed(),
    ensures
        r.0 == overshoot(ctx.history@, ctx.my_id),
        r.1 == opp_bids(ctx.history@, ctx.my_id),
        r.1 <= u32::MAX,
        -0x10_0000_0000 * r.1 <= r.0 <= 0x10_0000_0000 * r.1,
{
    let h = ctx.history;
    let mut s: i128 = 0;
    let mut n: u64 = 0;
    let mut i: usize = 0;
    while i < h.len()
        invariant
            i <= h@.len(),
            h@ == ctx.history@,
            h@.len() <= u32::MAX,
            s == overshoot(h@.take(i as int), ctx.my_id),
            n == opp_bids(h@.take(i as int), ctx.my_id),
            n <= i,
            -0x10_0000_0000 * n <= s <= 0x10_0000_0000 * n,
        decreases h@.len() - i,
    {
        proof {
            assert(h@.take(i + 1).drop_last() =~= h@.take(i as int));
        }
        let e = h[i];
        if e.player_id != ctx.my_id {
            if let Move::Bid(b) = e.mv {
                let w: i128 = if b.face == 1 {
                    10
                } else {
                    20
                };
                s = s + 6 * (b.quantity as i128) - w;
                n = n + 1;
            }
        }
        i = i + 1;
    }
    proof {
        assert(h@.take(h@.len() as int) =~= h@);
    }
    (s, n)
}

/// `below_adjusted`, computed.
fn is_below_adjusted(c: Chance, s: i128, n: u64, opp: u32) -> (r: bool)
    requires
        c.hits <= c.total,
        n <= u32::MAX,
        opp <= 24,
        -0x10_0000_0000 * n <= s <= 0x10_0000_0000 * n,
    ensures
        r == below_adjusted(c, s as int, n as nat, opp),
{
    if n == 0 {
        return c.below_percent(45);
    }
    proof {
        assert(0 <= (opp as int) * (n as int) <= 24 * 0x1_0000_0000) by (nonlinear_arith)
            requires
                opp <= 24,
                n <= 0x1_0000_0000,
        ;
    }
    let d: i128 = 6 * ((opp as i128) * (n as i128));
    proof {
        assert(6 * opp * n == d) by (nonlinear_arith)
            requires
                d == 6 * ((opp as int) * (n as int)),
        ;
    }
    if d == 0 {
        return if s > 0 {
            c.below_percent(65)
        } else {
            c.below_percent(35)
        };
    }
    if 10 * s < -d {
        return c.below_percent(35);
    }
    if 5 * s > d {
        return c.below_percent(65);
    }
    let h = c.hits as i128;
    let t = c.total as i128;
    proof {
        assert(0 <= h * d <= 0x1_0000_0000_0000_0000 * d) by (nonlinear_arith)
            requires
                0 <= h < 0x1_0000_0000_0000_0000,
                0 < d,
        ;
        assert(0 <= t * d <= 0x1_0000_0000_0000_0000 * d) by (nonlinear_arith)
            requires
                0 <= t < 0x1_0000_0000_0000_0000,
                0 < d,
        ;
        assert(-0x1_0000_0000_0000_0000 * d <= t * s <= 0x1_0000_0000_0000_0000 * d) by (nonlinear_arith)
            requires
                0 <= t < 0x1_0000_0000_0000_0000,
                0 < d,
                -d <= 10 * s,
                5 * s <= d,
        ;
        assert(100 * c.hits * d == 100 * (h * d)) by (nonlinear_arith)
            requires
                h == c.hits,
        ;
        assert(45 * c.total * d + 100 * c.total * s == 45 * (t * d) + 100 * (t * s)) by (nonlinear_arith)
            requires
                t == c.total,
        ;

    }
    100 * (h * d) < 45 * (t * d) + 100 * (t * s)
}

/// `MyBot` with its challenge threshold moved by how far the opponent's bids
/// have overshot expectation.
pub struct MyBotV2 {
    pub _rng: StdRng,
}

impl MyBotV2 {
    /// The bot, drawing what it leaves to chance from `rng`.
    pub fn new(rng: StdRng) -> (r: Self)
        ensures
            r._rng == rng,
    {
        MyBotV2 { _rng: rng }
    }
}

impl Strategy for MyBotV2 {
    fn name(&self) -> (r: &str)
        ensures
            r@ == "mybot-v2"@,
    {
        "mybot-v2"
    }

    open spec fn may_pick(my_id: u32, my_dice: Seq<u32>, history: Seq<HistoryEntry>, dice_per_player: u32, r: Move) -> bool {
        house_move(
                my_dice,
                dice_per_player,
                spec_last_bid(history),
                spec_last_bid(history) matches Some(p) && below_adjusted(
                    chance_of(my_dice, dice_per_player, p),
                    overshoot(history, my_id),
                    opp_bids(history, my_id),
                    dice_per_player,
                ),
                r,
            )
    }

    fn pick(&mut self, ctx: &Context) -> (r: Move)
        ensures
            house_move(
                ctx.my_dice@,
                ctx.dice_per_player,
                spec_last_bid(ctx.history@),
                spec_last_bid(ctx.history@) matches Some(p) && below_adjusted(
                    chance_of(ctx.my_dice@, ctx.dice_per_player, p),
                    overshoot(ctx.history@, ctx.my_id),
                    opp_bids(ctx.history@, ctx.my_id),
                    ctx.dice_per_player,
                ),
                r,
            ),
    {
        proof {
            lemma_ctx_facts(ctx);
        }
        let prev = last_bid(ctx);
        let (s, n) = overshoot_total(ctx);
        let weak = match prev {
            Some(p) => is_below_adjusted(bid_chance(ctx, p), s, n, ctx.dice_per_player),
            None => false,
        };
        house_decision(ctx, prev, weak)
    }
}

/// The bluff score of two stretches of history is the sum of theirs.
proof fn lemma_overshoot_concat(a: Seq<HistoryEntry>, b: Seq<HistoryEntry>, me: u32)
    ensures
        overshoot(a + b, me) == overshoot(a, me) + overshoot(b, me),
        opp_bids(a + b, me) == opp_bids(a, me) + opp_bids(b, me),
    decreases b.len(),
{
    if b.len() == 0 {
        assert(a + b =~= a);
    } else {
        lemma_overshoot_concat(a, b.drop_last(), me);
        assert((a + b).drop_last() =~= a + b.drop_last());
        assert((a + b).last() == b.last());
    }
}

/// An entry of ours adds nothing to the bluff score.
proof fn lemma_own_entry_scores_nothing(e: HistoryEntry, me: u32)
    requires
        e.player_id == me,
    ensures
        overshoot(seq![e], me) == 0,
        opp_bids(seq![e], me) == 0,
{
    let s1 = seq![e];
    assert(s1.len() == 1);
    assert(s1.last() == e);
    assert(s1.drop_last() =~= Seq::<HistoryEntry>::empty());
    assert(overshoot(s1.drop_last(), me) == 0);
    assert(opp_bids(s1.drop_last(), me) == 0);
}

/// The second house bot reads only the opponent's bids: inserting a move of
/// ours anywhere in the history, the last bid left as it was, changes
/// neither its challenge threshold nor its decision.
pub proof fn lemma_v2_ignores_inserted_own_moves(
    me: u32,
    dice: Seq<u32>,
    h: Seq<HistoryEntry>,
    i: int,
    e: HistoryEntry,
    opp: u32,
    r: Move,
)
    requires
        0 <= i <= h.len(),
        e.player_id == me,
        spec_last_bid(h.take(i) + seq![e] + h.skip(i)) == spec_last_bid(h),
    ensures
        overshoot(h.take(i) + seq![e] + h.skip(i), me) == overshoot(h, me),
        opp_bids(h.take(i) + seq![e] + h.skip(i), me) == opp_bids(h, me),
        MyBotV2::may_pick(me, dice, h.take(i) + seq![e] + h.skip(i), opp, r) == MyBotV2::may_pick(me, dice, h, opp, r),
{
    let a = h.take(i);
    let b = h.skip(i);
    assert(a + b =~= h);
    lemma_overshoot_concat(a, b, me);
    lemma_overshoot_concat(a, seq![e], me);
    lemma_overshoot_concat(a + seq![e], b, me);
    lemma_own_entry_scores_nothing(e, me);
}

/// The second house bot reads only the opponent's bids: changing a move of
/// ours in the history into another of ours, the last bid left as it was,
/// changes neither its challenge threshold nor its decision.
pub proof fn lemma_v2_ignores_changed_own_moves(
    me: u32,
    dice: Seq<u32>,
    h: Seq<HistoryEntry>,
    i: int,
    e: HistoryEntry,
    opp: u32,
    r: Move,
)
    requires
        0 <= i < h.len(),
        h[i].player_id == me,
        e.player_id == me,
        spec_last_bid(h.update(i, e)) == spec_last_bid(h),
    ensures
        overshoot(h.update(i, e), me) == overshoot(h, me),
        opp_bids(h.update(i, e), me) == opp_bids(h, me),
        MyBotV2::may_pick(me, dice, h.update(i, e), opp, r) == MyBotV2::may_pick(me, dice, h, opp, r),
{
    let a = h.take(i);
    let b = h.skip(i + 1);
    assert(a + seq![h[i]] + b =~= h);
    assert(a + seq![e] + b =~= h.update(i, e));
    lemma_overshoot_concat(a, seq![h[i]], me);
    lemma_overshoot_concat(a + seq![h[i]], b, me);
    lemma_overshoot_concat(a, seq![e], me);
    lemma_overshoot_concat(a + seq![e], b, me);
    lemma_own_entry_scores_nothing(e, me);
    lemma_own_entry_scores_nothing(h[i], me);
}

} // verus!
