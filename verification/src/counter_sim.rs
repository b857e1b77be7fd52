//! The simulation-based counter to the eleventh bot: it keeps the hands of
//! the eleventh bot consistent with every move seen, and scores each
//! candidate action by playing the round out against each such hand, itself
//! following a fixed simple policy.
use crate::archetype_bots::{lemma_v11_unique, v11_decision_at, MyBotV11};
use crate::bidding::{best_face, is_next_bid, last_bid, legal_next_bids, lists_next_bids, spec_best_face};
use crate::chance::below_pct;
use crate::dice::{
    count_face, entry_valid, history_ok, lemma_count_face_bounded, spec_count_face, spec_last_bid, valid_bid, Bid,
    Context, HistoryEntry, Move, Strategy,
};
use crate::liar_players::{bid_chance, chance_of, first_safe_index, lemma_ctx_facts, least_safe, none_safe};
use crate::rng::seeded;
use vstd::prelude::*;

verus! {

/// Die `k` (0-based) of the hand at position `i` of the enumeration of all
/// five-die hands in lexicographic order.
pub open spec fn hand_die(i: int, k: int) -> int {
    if k == 0 {
        (i / 1296) % 6 + 1
    } else if k == 1 {
        (i / 216) % 6 + 1
    } else if k == 2 {
        (i / 36) % 6 + 1
    } else if k == 3 {
        (i / 6) % 6 + 1
    } else {
        i % 6 + 1
    }
}

/// Every five-die hand, in lexicographic order: 6^5 hands.
pub fn all_hands() -> (out: Vec<[u32; 5]>)
    ensures
        out@.len() == 7776,
        forall|i: int, k: int| 0 <= i < 7776 && 0 <= k < 5 ==> #[trigger] out@[i]@[k] == hand_die(i, k),
{
    let mut out: Vec<[u32; 5]> = Vec::new();
    let mut i: u32 = 0;
    while i < 7776
        invariant
            i <= 7776,
            out@.len() == i,
            forall|j: int, k: int| 0 <= j < i && 0 <= k < 5 ==> #[trigger] out@[j]@[k] == hand_die(j, k),
        decreases 7776 - i,
    {
        let hand: [u32; 5] = [(i / 1296) % 6 + 1, (i / 216) % 6 + 1, (i / 36) % 6 + 1, (i / 6) % 6 + 1, i % 6 + 1];
        proof {
            assert forall|k: int| 0 <= k < 5 implies hand@[k] == hand_die(i as int, k) by {
            }
        }
        out.push(hand);
        i = i + 1;
    }
    out
}

/// Whether two moves are the same move.
pub fn moves_equal(a: Move, b: Move) -> (r: bool)
    ensures
        r == (a == b),
{
    match (a, b) {
        (Move::Challenge, Move::Challenge) => true,
        (Move::Bid(x), Move::Bid(y)) => x.quantity == y.quantity && x.face == y.face,
        _ => false,
    }
}

/// The opening candidates: every face at quantities one and two, then our
/// best face at the count we hold and one more (when we hold any, the second
/// only below ten).
pub open spec fn opening_candidates(dice: Seq<u32>) -> Seq<Move> {
    let row1 = Seq::new(6, |f: int| Move::Bid(Bid { quantity: 1, face: (f + 1) as u32 }));
    let row2 = Seq::new(6, |f: int| Move::Bid(Bid { quantity: 2, face: (f + 1) as u32 }));
    let best = spec_best_face(dice);
    let c = spec_count_face(dice, best);
    let tail = if c >= 1 {
        if c < 10 {
            seq![
                Move::Bid(Bid { quantity: c as u32, face: best }),
                Move::Bid(Bid { quantity: (c + 1) as u32, face: best }),
            ]
        } else {
            seq![Move::Bid(Bid { quantity: c as u32, face: best })]
        }
    } else {
        Seq::empty()
    };
    row1 + row2 + tail
}

/// The actions worth simulating: pruned openings with nothing on the table,
/// else a challenge followed by every legal raise in increasing order.
pub fn candidate_actions(ctx: &Context, prev: Option<Bid>) -> (out: Vec<Move>)
    requires
        ctx.well_formed(),
        prev matches Some(p) ==> p.quantity < u32::MAX && p.face < u32::MAX,
    ensures
        prev is None ==> out@ == opening_candidates(ctx.my_dice@),
        prev is Some ==> exists|bids: Seq<Bid>|
            lists_next_bids(prev, bids) && out@ == seq![Move::Challenge] + bids.map_values(|b: Bid| Move::Bid(b)),
{
    let mut out: Vec<Move> = Vec::new();
    match prev {
        None => {
            let mut f: u32 = 1;
            while f <= 6
                invariant
                    1 <= f <= 7,
                    out@ == Seq::new((f - 1) as nat, |g: int| Move::Bid(Bid { quantity: 1, face: (g + 1) as u32 })),
                decreases 7 - f,
            {
                out.push(Move::Bid(Bid { quantity: 1, face: f }));
                f = f + 1;
            }
            let ghost row1 = out@;
            let mut f: u32 = 1;
            while f <= 6
                invariant
                    1 <= f <= 7,
                    row1.len() == 6,
                    out@ == row1 + Seq::new(
                        (f - 1) as nat,
                        |g: int| Move::Bid(Bid { quantity: 2, face: (g + 1) as u32 }),
                    ),
                decreases 7 - f,
            {
                out.push(Move::Bid(Bid { quantity: 2, face: f }));
                f = f + 1;
            }
            let best = best_face(ctx.my_dice);
            let c_best = count_face(ctx.my_dice, best);
            if c_best >= 1 {
                out.push(Move::Bid(Bid { quantity: c_best, face: best }));
                if c_best < 10 {
                    out.push(Move::Bid(Bid { quantity: c_best + 1, face: best }));
                }
            }
            proof {
                assert(out@ =~= opening_candidates(ctx.my_dice@));
            }
        },
        Some(_) => {
            out.push(Move::Challenge);
            let bids = legal_next_bids(prev);
            let mut i: usize = 0;
            while i < bids.len()
                invariant
                    i <= bids@.len(),
                    out@ == seq![Move::Challenge] + bids@.take(i as int).map_values(|b: Bid| Move::Bid(b)),
                decreases bids@.len() - i,
            {
                out.push(Move::Bid(bids[i]));
                proof {
                    assert(bids@.take(i + 1) =~= bids@.take(i as int).push(bids@[i as int]));
                    assert(out@ =~= seq![Move::Challenge] + bids@.take(i + 1).map_values(|b: Bid| Move::Bid(b)));
                }
                i = i + 1;
            }
            proof {
                assert(bids@.take(bids@.len() as int) =~= bids@);
            }
        },
    }
    out
}

/// The policy the simulation plays for us: challenge a bid below 35%, else
/// the least raise of at least 50%, else challenge.
pub open spec fn sim_policy_move(dice: Seq<u32>, prev: Bid, opp: u32, r: Move) -> bool {
    if below_pct(chance_of(dice, opp, prev), 35) || none_safe(dice, opp, Some(prev), 50) {
        r is Challenge
    } else {
        r matches Move::Bid(b) && least_safe(dice, opp, Some(prev), b, 50)
    }
}

/// A fixed Honest-style policy: challenge when the last bid holds with less
/// than 35%, else make the least raise that holds with at least 50%, else
/// challenge.
pub fn sim_policy(my_dice: &[u32], prev: Bid, opp_dice: u32) -> (r: Move)
    requires
        my_dice@.len() <= 1000,
        opp_dice <= 24,
        prev.quantity < u32::MAX,
        prev.face < u32::MAX,
    ensures
        sim_policy_move(my_dice@, prev, opp_dice, r),
{
    let no_history: Vec<HistoryEntry> = Vec::new();
    let ctx = Context { my_id: 0, my_dice, history: no_history.as_slice(), dice_per_player: opp_dice };
    proof {
        assert(ctx.history@.len() == 0);
    }
    if bid_chance(&ctx, prev).below_percent(35) {
        return Move::Challenge;
    }
    let bids = legal_next_bids(Some(prev));
    match first_safe_index(&ctx, &bids, 50, Ghost(Some(prev))) {
        Some(i) => Move::Bid(bids[i]),
        None => Move::Challenge,
    }
}

/// The simple policy allows one move only.
proof fn lemma_sim_unique(dice: Seq<u32>, prev: Bid, opp: u32, r1: Move, r2: Move)
    requires
        sim_policy_move(dice, prev, opp, r1),
        sim_policy_move(dice, prev, opp, r2),
    ensures
        r1 == r2,
{
    if let (Move::Bid(b1), Move::Bid(b2)) = (r1, r2) {
        if b1 != b2 {
            if b1.spec_beats(b2) {
                assert(below_pct(chance_of(dice, opp, b2), 50));
            } else {
                assert(b2.spec_beats(b1));
                assert(below_pct(chance_of(dice, opp, b1), 50));
            }
        }
    }
}

// ---------------------------------------------------------------- play-outs

/// The eleventh bot's move holding `dice` as player `me` after history `h`
/// (its decision allows exactly one).
pub open spec fn v11_move(dice: Seq<u32>, opp: u32, h: Seq<HistoryEntry>, me: u32) -> Move {
    choose|r: Move| v11_decision_at(dice, opp, h, me, r)
}

/// The simple policy's move.
pub open spec fn sim_move(dice: Seq<u32>, prev: Bid, opp: u32) -> Move {
    choose|r: Move| sim_policy_move(dice, prev, opp, r)
}

proof fn lemma_v11_move(dice: Seq<u32>, opp: u32, h: Seq<HistoryEntry>, me: u32, r: Move)
    requires
        v11_decision_at(dice, opp, h, me, r),
    ensures
        v11_move(dice, opp, h, me) == r,
{
    let c = v11_move(dice, opp, h, me);
    assert(v11_decision_at(dice, opp, h, me, c));
    lemma_v11_unique(dice, opp, h, me, r, c);
}

proof fn lemma_sim_move(dice: Seq<u32>, prev: Bid, opp: u32, r: Move)
    requires
        sim_policy_move(dice, prev, opp, r),
    ensures
        sim_move(dice, prev, opp) == r,
{
    let c = sim_move(dice, prev, opp);
    assert(sim_policy_move(dice, prev, opp, c));
    lemma_sim_unique(dice, prev, opp, r, c);
}

/// Our result in halves (2 a win, 0 a loss, 1 undecided) of playing on from
/// history `h` with the last bid `last` and `turn` to move, for at most
/// `fuel` more moves: we are player `me` holding `dice` and follow the simple
/// policy; the eleventh bot holds `hand` and moves as it decides. A
/// malformed or non-raising bid, running out of moves, or a history of
/// 2^32 - 1 entries leaves the round undecided.
pub open spec fn playout(
    dice: Seq<u32>,
    me: u32,
    hand: Seq<u32>,
    dpp: u32,
    h: Seq<HistoryEntry>,
    last: Bid,
    turn: u32,
    fuel: nat,
) -> nat
    decreases fuel,
{
    let other = (1 - me) as u32;
    let actual = spec_count_face(dice, last.face) + spec_count_face(hand, last.face);
    if fuel == 0 || h.len() >= 0xffff_ffff {
        1
    } else if turn == other {
        match v11_move(hand, dpp, h, other) {
            Move::Challenge => if actual >= last.quantity {
                2
            } else {
                0
            },
            Move::Bid(b) => if !valid_bid(b) || !b.spec_beats(last) {
                1
            } else {
                playout(
                    dice,
                    me,
                    hand,
                    dpp,
                    h.push(HistoryEntry { player_id: other, mv: Move::Bid(b) }),
                    b,
                    me,
                    (fuel - 1) as nat,
                )
            },
        }
    } else {
        match sim_move(dice, last, dpp) {
            Move::Challenge => if actual >= last.quantity {
                0
            } else {
                2
            },
            Move::Bid(b) => if !valid_bid(b) || !b.spec_beats(last) {
                1
            } else {
                playout(
                    dice,
                    me,
                    hand,
                    dpp,
                    h.push(HistoryEntry { player_id: me, mv: Move::Bid(b) }),
                    b,
                    other,
                    (fuel - 1) as nat,
                )
            },
        }
    }
}

/// Our result in halves of bidding `our_bid` at `ctx` against the eleventh
/// bot holding `hand`, playing on for at most eighty moves.
pub open spec fn bid_outcome(ctx: &Context, our_bid: Bid, hand: Seq<u32>) -> nat {
    playout(
        ctx.my_dice@,
        ctx.my_id,
        hand,
        ctx.dice_per_player,
        ctx.history@.push(HistoryEntry { player_id: ctx.my_id, mv: Move::Bid(our_bid) }),
        our_bid,
        (1 - ctx.my_id) as u32,
        80,
    )
}

fn copy_entries(h: &[HistoryEntry], n: usize) -> (r: Vec<HistoryEntry>)
    requires
        n <= h@.len(),
    ensures
        r@ == h@.take(n as int),
{
    let mut out: Vec<HistoryEntry> = Vec::new();
    let mut i: usize = 0;
    while i < n
        invariant
            i <= n <= h@.len(),
            out@ == h@.take(i as int),
        decreases n - i,
    {
        out.push(h[i]);
        proof {
            assert(h@.take(i + 1) =~= h@.take(i as int).push(h@[i as int]));
        }
        i = i + 1;
    }
    out
}

/// Plays the round out after our bid against the eleventh bot holding `hand`.
fn simulate_outcome(v11: &mut MyBotV11, ctx: &Context, our_bid: Bid, hand: &[u32; 5]) -> (r: u64)
    requires
        ctx.well_formed(),
        valid_bid(our_bid),
    ensures
        r == bid_outcome(ctx, our_bid, hand@),
{
    let me = ctx.my_id;
    let other = 1 - ctx.my_id;
    let dpp = ctx.dice_per_player;
    let mut hist = copy_entries(ctx.history, ctx.history.len());
    proof {
        assert(ctx.history@.take(ctx.history@.len() as int) =~= ctx.history@);
        lemma_count_face_bounded(ctx.my_dice@, our_bid.face);
    }
    if hist.len() >= 0xffff_ffff {
        // the history cannot grow by our bid
        proof {
            let big = ctx.history@.push(HistoryEntry { player_id: me, mv: Move::Bid(our_bid) });
            assert(big.len() >= 0xffff_ffff);
            assert(playout(ctx.my_dice@, me, hand@, dpp, big, our_bid, other, 80) == 1);
        }
        return 1;
    }
    hist.push(HistoryEntry { player_id: me, mv: Move::Bid(our_bid) });
    let ghost start = hist@;
    let mut last = our_bid;
    let mut turn = other;
    let mut fuel: u32 = 80;
    proof {
        assert forall|i: int| 0 <= i < hist@.len() implies entry_valid(#[trigger] hist@[i]) by {
            if i < hist@.len() - 1 {
                assert(hist@[i] == ctx.history@[i]);
            }
        }
    }
    while fuel > 0
        invariant
            ctx.well_formed(),
            me == ctx.my_id,
            other == 1 - ctx.my_id,
            dpp == ctx.dice_per_player,
            turn == me || turn == other,
            fuel <= 80,
            valid_bid(last),
            history_ok(hist@),
            start == ctx.history@.push(HistoryEntry { player_id: ctx.my_id, mv: Move::Bid(our_bid) }),
            playout(ctx.my_dice@, me, hand@, dpp, hist@, last, turn, fuel as nat) == playout(
                ctx.my_dice@,
                me,
                hand@,
                dpp,
                start,
                our_bid,
                other,
                80,
            ),
        decreases fuel,
    {
        if hist.len() >= 0xffff_ffff {
            return 1;
        }
        proof {
            lemma_count_face_bounded(ctx.my_dice@, last.face);
            lemma_count_face_bounded(hand@, last.face);
        }
        let actual = count_face(ctx.my_dice, last.face) + count_face(hand, last.face);
        if turn == other {
            let hctx = Context { my_id: other, my_dice: hand, history: hist.as_slice(), dice_per_player: dpp };
            let m = v11.pick(&hctx);
            proof {
                lemma_v11_move(hand@, dpp, hist@, other, m);
            }
            match m {
                Move::Challenge => {
                    return if actual >= last.quantity {
                        2
                    } else {
                        0
                    };
                },
                Move::Bid(b) => {
                    if b.quantity < 1 || b.quantity > 10 || b.face < 1 || b.face > 6 || !b.beats(last) {
                        return 1;
                    }
                    let ghost before = hist@;
                    hist.push(HistoryEntry { player_id: other, mv: Move::Bid(b) });
                    proof {
                        assert forall|i: int| 0 <= i < hist@.len() implies entry_valid(#[trigger] hist@[i]) by {
                            if i < before.len() {
                                assert(hist@[i] == before[i]);
                            }
                        }
                    }
                    last = b;
                    turn = me;
                },
            }
        } else {
            let m = sim_policy(ctx.my_dice, last, dpp);
            proof {
                lemma_sim_move(ctx.my_dice@, last, dpp, m);
            }
            match m {
                Move::Challenge => {
                    return if actual >= last.quantity {
                        0
                    } else {
                        2
                    };
                },
                Move::Bid(b) => {
                    if b.quantity < 1 || b.quantity > 10 || b.face < 1 || b.face > 6 || !b.beats(last) {
                        return 1;
                    }
                    let ghost before = hist@;
                    hist.push(HistoryEntry { player_id: me, mv: Move::Bid(b) });
                    proof {
                        assert forall|i: int| 0 <= i < hist@.len() implies entry_valid(#[trigger] hist@[i]) by {
                            if i < before.len() {
                                assert(hist@[i] == before[i]);
                            }
                        }
                    }
                    last = b;
                    turn = other;
                },
            }
        }
        fuel = fuel - 1;
    }
    1
}

// ---------------------------------------------------------------- the counter

/// The eleventh bot, as player `opp_id` holding `hand`, would have made the
/// move of entry `i` after the entries before it.
pub open spec fn consistent(hand: Seq<u32>, h: Seq<HistoryEntry>, i: int, opp_id: u32, dpp: u32) -> bool {
    v11_move(hand, dpp, h.take(i), opp_id) == h[i].mv
}

/// The hands of `hands` consistent with entry `i`, in order.
pub open spec fn keep_consistent(hands: Seq<[u32; 5]>, h: Seq<HistoryEntry>, i: int, opp_id: u32, dpp: u32) -> Seq<
    [u32; 5],
>
    decreases hands.len(),
{
    if hands.len() == 0 {
        hands
    } else {
        let rest = keep_consistent(hands.drop_last(), h, i, opp_id, dpp);
        if consistent(hands.last()@, h, i, opp_id, dpp) {
            rest.push(hands.last())
        } else {
            rest
        }
    }
}

/// The hands of `hands` consistent with every move of player `opp_id` among
/// the entries `from..to`.
pub open spec fn sift(hands: Seq<[u32; 5]>, h: Seq<HistoryEntry>, from: int, to: int, opp_id: u32, dpp: u32) -> Seq<
    [u32; 5],
>
    decreases to - from,
{
    if to <= from {
        hands
    } else {
        let prev = sift(hands, h, from, to - 1, opp_id, dpp);
        if h[to - 1].player_id == opp_id {
            keep_consistent(prev, h, to - 1, opp_id, dpp)
        } else {
            prev
        }
    }
}

/// Every five-die hand in the order of the enumeration.
pub open spec fn is_all_hands(s: Seq<[u32; 5]>) -> bool {
    s.len() == 7776 && forall|i: int, k: int| 0 <= i < 7776 && 0 <= k < 5 ==> #[trigger] s[i]@[k] == hand_die(i, k)
}

/// Twice the number of hands against which challenging `p` wins, among the first `n`.
pub open spec fn challenge_wins(dice: Seq<u32>, hands: Seq<[u32; 5]>, p: Bid, n: int) -> nat
    decreases n,
{
    if n <= 0 {
        0
    } else {
        challenge_wins(dice, hands, p, n - 1) + if spec_count_face(dice, p.face) + spec_count_face(
            hands[n - 1]@,
            p.face,
        ) < p.quantity {
            2nat
        } else {
            0nat
        }
    }
}

/// Our results in halves of bidding `b`, summed over the first `n` hands.
pub open spec fn bid_results(ctx: &Context, hands: Seq<[u32; 5]>, b: Bid, n: int) -> nat
    decreases n,
{
    if n <= 0 {
        0
    } else {
        bid_results(ctx, hands, b, n - 1) + bid_outcome(ctx, b, hands[n - 1]@)
    }
}

/// The score of an action over the hands, in halves: a challenge of the last
/// bid wins against the hands short of it; a bid scores its play-outs (a
/// malformed bid counts every play-out undecided).
pub open spec fn action_score(ctx: &Context, hands: Seq<[u32; 5]>, a: Move) -> nat {
    match a {
        Move::Challenge => match spec_last_bid(ctx.history@) {
            Some(p) => challenge_wins(ctx.my_dice@, hands, p, hands.len() as int),
            None => 0,
        },
        Move::Bid(b) => if valid_bid(b) {
            bid_results(ctx, hands, b, hands.len() as int)
        } else {
            hands.len()
        },
    }
}

/// Of the first `n` actions, the first of greatest score with its score.
pub open spec fn best_action(ctx: &Context, hands: Seq<[u32; 5]>, acts: Seq<Move>, n: int) -> (Move, nat)
    decreases n,
{
    if n <= 1 {
        (acts[0], action_score(ctx, hands, acts[0]))
    } else {
        let b = best_action(ctx, hands, acts, n - 1);
        let s = action_score(ctx, hands, acts[n - 1]);
        if s > b.1 {
            (acts[n - 1], s)
        } else {
            b
        }
    }
}

/// The actions worth simulating at `ctx`, in order.
pub open spec fn candidate_list(ctx: &Context, acts: Seq<Move>) -> bool {
    let prev = spec_last_bid(ctx.history@);
    match prev {
        None => acts == opening_candidates(ctx.my_dice@),
        Some(_) => exists|bids: Seq<Bid>|
            lists_next_bids(prev, bids) && acts == seq![Move::Challenge] + bids.map_values(|b: Bid| Move::Bid(b)),
    }
}

/// Counters the eleventh bot by simulating it against every hand it could hold.
pub struct V11CounterSim {
    v11_sim: MyBotV11,
    sifted: HandPool,
    last_history_len: usize,
}

/// The hands still in play: never more than the 6^5 hands of five dice.
struct HandPool {
    hands: Vec<[u32; 5]>,
}

impl HandPool {
    #[verifier::type_invariant]
    spec fn few_hands(self) -> bool {
        self.hands@.len() <= 7776
    }
}

impl V11CounterSim {

    /// The hands of the eleventh bot still consistent with its moves.
    pub closed spec fn candidates(&self) -> Seq<[u32; 5]> {
        self.sifted.hands@
    }

    /// How many entries of the round's history have been read.
    pub closed spec fn seen(&self) -> nat {
        self.last_history_len as nat
    }

    /// A counter that has read nothing yet: every hand is still possible.
    pub fn new() -> (r: Self)
        ensures
            is_all_hands(r.candidates()),
            r.seen() == 0,
    {
        V11CounterSim { v11_sim: MyBotV11::new(seeded(0)), sifted: HandPool { hands: all_hands() }, last_history_len: 0 }
    }

    /// Keeps the hands consistent with entry `i`, a move of the eleventh bot.
    fn sift_entry(&mut self, ctx: &Context, i: usize)
        requires
            ctx.well_formed(),
            i < ctx.history@.len(),
        ensures
            final(self).sifted.hands@ == keep_consistent(
                old(self).sifted.hands@,
                ctx.history@,
                i as int,
                (1 - ctx.my_id) as u32,
                ctx.dice_per_player,
            ),
            final(self).last_history_len == old(self).last_history_len,
    {
        proof {
            use_type_invariant(&self.sifted);
        }
        let opp_id = 1 - ctx.my_id;
        let dpp = ctx.dice_per_player;
        let prefix = copy_entries(ctx.history, i);
        proof {
            assert forall|k: int| 0 <= k < prefix@.len() implies entry_valid(#[trigger] prefix@[k]) by {
                assert(prefix@[k] == ctx.history@[k]);
            }
        }
        let ghost h = ctx.history@;
        let ghost old_hands = self.sifted.hands@;
        let ghost seen = self.last_history_len;
        let mut kept: Vec<[u32; 5]> = Vec::new();
        let mut j: usize = 0;
        while j < self.sifted.hands.len()
            invariant
                ctx.well_formed(),
                h == ctx.history@,
                i < h.len(),
                opp_id == 1 - ctx.my_id,
                dpp == ctx.dice_per_player,
                prefix@ == h.take(i as int),
                history_ok(prefix@),
                self.sifted.hands@ == old_hands,
                self.last_history_len == seen,
                j <= old_hands.len(),
                kept@.len() <= j,
                kept@ == keep_consistent(old_hands.take(j as int), h, i as int, opp_id, dpp),
            decreases old_hands.len() - j,
        {
            let hand = self.sifted.hands[j];
            let hctx = Context { my_id: opp_id, my_dice: &hand, history: prefix.as_slice(), dice_per_player: dpp };
            let m = self.v11_sim.pick(&hctx);
            proof {
                lemma_v11_move(hand@, dpp, prefix@, opp_id, m);
                assert(old_hands.take(j + 1).drop_last() =~= old_hands.take(j as int));
                assert(old_hands.take(j + 1).last() == hand);
            }
            if moves_equal(m, ctx.history[i].mv) {
                kept.push(hand);
            }
            j = j + 1;
        }
        proof {
            assert(old_hands.take(old_hands.len() as int) =~= old_hands);
        }
        self.sifted.hands = kept;
    }
}

impl Strategy for V11CounterSim {
    fn name(&self) -> (r: &str)
        ensures
            r@ == "v11-counter-sim"@,
    {
        "v11-counter-sim"
    }

    fn pick(&mut self, ctx: &Context) -> (r: Move)
        ensures
            ({
                let h = ctx.history@;
                let opp_id = (1 - ctx.my_id) as u32;
                let hands = final(self).candidates();
                &&& h.len() < old(self).seen() ==> exists|s: Seq<[u32; 5]>|
                    is_all_hands(s) && hands == sift(s, h, 0, h.len() as int, opp_id, ctx.dice_per_player)
                &&& h.len() >= old(self).seen() ==> hands == sift(
                    old(self).candidates(),
                    h,
                    old(self).seen() as int,
                    h.len() as int,
                    opp_id,
                    ctx.dice_per_player,
                )
                &&& final(self).seen() == h.len()
                &&& hands.len() == 0 ==> r == Move::Bid(Bid { quantity: 1, face: 2 })
                &&& hands.len() > 0 ==> exists|acts: Seq<Move>|
                    candidate_list(ctx, acts) && acts.len() > 0 && r == best_action(ctx, hands, acts, acts.len() as int).0
            }),
    {
        proof {
            lemma_ctx_facts(ctx);
        }
        let ghost old_seen = self.last_history_len as int;
        let ghost old_hands = self.sifted.hands@;
        if ctx.history.len() < self.last_history_len {
            self.sifted.hands = all_hands();
            self.last_history_len = 0;
        }
        let ghost start = self.sifted.hands@;
        assert(ctx.history@.len() < old_seen ==> is_all_hands(start) && self.last_history_len == 0);
        assert(ctx.history@.len() >= old_seen ==> start == old_hands && self.last_history_len == old_seen);
        let ghost from = self.last_history_len as int;
        let opp_id = 1 - ctx.my_id;
        let dpp = ctx.dice_per_player;
        let mut i = self.last_history_len;
        while i < ctx.history.len()
            invariant
                ctx.well_formed(),
                opp_id == 1 - ctx.my_id,
                dpp == ctx.dice_per_player,
                from <= i <= ctx.history@.len(),
                from == self.last_history_len,
                self.sifted.hands@ == sift(start, ctx.history@, from, i as int, opp_id, dpp),
            decreases ctx.history@.len() - i,
        {
            if ctx.history[i].player_id == opp_id {
                self.sift_entry(ctx, i);
            }
            i = i + 1;
        }
        self.last_history_len = ctx.history.len();
        proof {
            use_type_invariant(&self.sifted);
            let sifted_all = sift(start, ctx.history@, 0, ctx.history@.len() as int, opp_id, dpp);
            if ctx.history@.len() < old_seen {
                assert(is_all_hands(start) && self.sifted.hands@ == sifted_all);
            }
        }
        if self.sifted.hands.len() == 0 {
            return Move::Bid(Bid { quantity: 1, face: 2 });
        }
        let prev = last_bid(ctx);
        let actions = candidate_actions(ctx, prev);
        let ghost hands = self.sifted.hands@;
        proof {
            if prev is None {
                assert(actions@.len() > 0);
            } else {
                let bids = choose|bids: Seq<Bid>|
                    lists_next_bids(prev, bids) && actions@ == seq![Move::Challenge] + bids.map_values(
                        |b: Bid| Move::Bid(b),
                    );
                assert(actions@[0] == Move::Challenge);
            }
        }
        let mut best_move = actions[0];
        let mut best_score = self.score(ctx, actions[0]);
        let mut k: usize = 1;
        while k < actions.len()
            invariant
                ctx.well_formed(),
                1 <= k <= actions@.len(),
                self.sifted.hands@ == hands,
                self.last_history_len == ctx.history@.len(),
                hands.len() <= 7776,
                (best_move, best_score as nat) == best_action(ctx, hands, actions@, k as int),
            decreases actions@.len() - k,
        {
            let s = self.score(ctx, actions[k]);
            if s > best_score {
                best_move = actions[k];
                best_score = s;
            }
            k = k + 1;
        }
        proof {
            assert(candidate_list(ctx, actions@));
        }
        best_move
    }
}

impl V11CounterSim {
    /// The score of an action over the hands still consistent.
    fn score(&mut self, ctx: &Context, a: Move) -> (r: u64)
        requires
            ctx.well_formed(),
        ensures
            r == action_score(ctx, old(self).sifted.hands@, a),
            final(self).sifted.hands@ == old(self).sifted.hands@,
            final(self).last_history_len == old(self).last_history_len,
    {
        proof {
            use_type_invariant(&self.sifted);
            lemma_ctx_facts(ctx);
        }
        let ghost hands = self.sifted.hands@;
        let ghost seen = self.last_history_len;
        match a {
            Move::Challenge => {
                match last_bid(ctx) {
                    Some(p) => {
                        let mine = count_face(ctx.my_dice, p.face);
                        let mut wins: u64 = 0;
                        let mut j: usize = 0;
                        while j < self.sifted.hands.len()
                            invariant
                                j <= hands.len(),
                                self.sifted.hands@ == hands,
                                hands.len() <= 7776,
                                mine == spec_count_face(ctx.my_dice@, p.face),
                                mine <= 1000,
                                wins == challenge_wins(ctx.my_dice@, hands, p, j as int),
                                wins <= 2 * j,
                            decreases hands.len() - j,
                        {
                            let hand = self.sifted.hands[j];
                            proof {
                                lemma_count_face_bounded(hand@, p.face);
                            }
                            if mine + count_face(&hand, p.face) < p.quantity {
                                wins = wins + 2;
                            }
                            j = j + 1;
                        }
                        wins
                    },
                    None => 0,
                }
            },
            Move::Bid(b) => {
                if b.quantity < 1 || b.quantity > 10 || b.face < 1 || b.face > 6 {
                    return self.sifted.hands.len() as u64;
                }
                let mut total: u64 = 0;
                let mut j: usize = 0;
                while j < self.sifted.hands.len()
                    invariant
                        ctx.well_formed(),
                        valid_bid(b),
                        j <= hands.len(),
                        self.sifted.hands@ == hands,
                        self.last_history_len == seen,
                        hands.len() <= 7776,
                        total == bid_results(ctx, hands, b, j as int),
                        total <= 2 * j,
                    decreases hands.len() - j,
                {
                    let hand = self.sifted.hands[j];
                    let o = simulate_outcome(&mut self.v11_sim, ctx, b, &hand);
                    proof {
                        lemma_outcome_le_two(ctx, b, hand@);
                    }
                    total = total + o;
                    j = j + 1;
                }
                total
            },
        }
    }
}

proof fn lemma_playout_le_two(
    dice: Seq<u32>,
    me: u32,
    hand: Seq<u32>,
    dpp: u32,
    h: Seq<HistoryEntry>,
    last: Bid,
    turn: u32,
    fuel: nat,
)
    ensures
        playout(dice, me, hand, dpp, h, last, turn, fuel) <= 2,
    decreases fuel,
{
    if fuel > 0 {
        let other = (1 - me) as u32;
        if turn == other {
            if let Move::Bid(b) = v11_move(hand, dpp, h, other) {
                lemma_playout_le_two(
                    dice,
                    me,
                    hand,
                    dpp,
                    h.push(HistoryEntry { player_id: other, mv: Move::Bid(b) }),
                    b,
                    me,
                    (fuel - 1) as nat,
                );
            }
        } else {
            if let Move::Bid(b) = sim_move(dice, last, dpp) {
                lemma_playout_le_two(
                    dice,
                    me,
                    hand,
                    dpp,
                    h.push(HistoryEntry { player_id: me, mv: Move::Bid(b) }),
                    b,
                    other,
                    (fuel - 1) as nat,
                );
            }
        }
    }
}

proof fn lemma_outcome_le_two(ctx: &Context, b: Bid, hand: Seq<u32>)
    ensures
        bid_outcome(ctx, b, hand) <= 2,
{
    lemma_playout_le_two(
        ctx.my_dice@,
        ctx.my_id,
        hand,
        ctx.dice_per_player,
        ctx.history@.push(HistoryEntry { player_id: ctx.my_id, mv: Move::Bid(b) }),
        b,
        (1 - ctx.my_id) as u32,
        80,
    );
}

/// Every hand kept for entry `i` reproduces that entry and was in `hands`.
proof fn lemma_keep_sound(hands: Seq<[u32; 5]>, h: Seq<HistoryEntry>, i: int, opp_id: u32, dpp: u32)
    ensures
        forall|j: int|
            0 <= j < keep_consistent(hands, h, i, opp_id, dpp).len() ==> consistent(
                (#[trigger] keep_consistent(hands, h, i, opp_id, dpp)[j])@,
                h,
                i,
                opp_id,
                dpp,
            ) && hands.contains(keep_consistent(hands, h, i, opp_id, dpp)[j]),
    decreases hands.len(),
{
    if hands.len() > 0 {
        let t = hands.drop_last();
        lemma_keep_sound(t, h, i, opp_id, dpp);
        let k = keep_consistent(hands, h, i, opp_id, dpp);
        let kt = keep_consistent(t, h, i, opp_id, dpp);
        assert forall|j: int| 0 <= j < k.len() implies consistent((#[trigger] k[j])@, h, i, opp_id, dpp)
            && hands.contains(k[j]) by {
            if j < kt.len() {
                assert(k[j] == kt[j]);
                assert(t.contains(kt[j]));
                let m = choose|m: int| 0 <= m < t.len() && t[m] == kt[j];
                assert(hands[m] == t[m]);
            } else {
                assert(k[j] == hands.last());
                assert(hands[hands.len() - 1] == hands.last());
            }
        }
    }
}

/// Every hand the counter keeps reproduces every move the eleventh bot made:
/// sifting hands through entries `from..to` keeps only hands that, as player
/// `opp_id`, would have made each of that player's moves among them.
pub proof fn lemma_sift_explains_moves(hands: Seq<[u32; 5]>, h: Seq<HistoryEntry>, from: int, to: int, opp_id: u32, dpp: u32)
    ensures
        forall|j: int, i: int|
            0 <= j < sift(hands, h, from, to, opp_id, dpp).len() && from <= i < to && h[i].player_id == opp_id
                ==> #[trigger] consistent(sift(hands, h, from, to, opp_id, dpp)[j]@, h, i, opp_id, dpp),
        forall|j: int|
            0 <= j < sift(hands, h, from, to, opp_id, dpp).len() ==> hands.contains(
                #[trigger] sift(hands, h, from, to, opp_id, dpp)[j],
            ),
    decreases to - from,
{
    if to > from {
        lemma_sift_explains_moves(hands, h, from, to - 1, opp_id, dpp);
        let prev = sift(hands, h, from, to - 1, opp_id, dpp);
        let cur = sift(hands, h, from, to, opp_id, dpp);
        if h[to - 1].player_id == opp_id {
            lemma_keep_sound(prev, h, to - 1, opp_id, dpp);
            assert forall|j: int, i: int|
                0 <= j < cur.len() && from <= i < to && h[i].player_id == opp_id implies #[trigger] consistent(
                cur[j]@,
                h,
                i,
                opp_id,
                dpp,
            ) by {
                assert(prev.contains(cur[j]));
                let m = choose|m: int| 0 <= m < prev.len() && prev[m] == cur[j];
                if i < to - 1 {
                    assert(consistent(prev[m]@, h, i, opp_id, dpp));
                }
            }
            assert forall|j: int| 0 <= j < cur.len() implies hands.contains(#[trigger] cur[j]) by {
                assert(prev.contains(cur[j]));
                let m = choose|m: int| 0 <= m < prev.len() && prev[m] == cur[j];
                assert(hands.contains(prev[m]));
            }
        }
    }
}

/// The hands against which challenging `p` wins: the bid is false over our
/// dice and that hand together, ones wild.
pub open spec fn bid_false_with(dice: Seq<u32>, p: Bid) -> spec_fn([u32; 5]) -> bool {
    |h: [u32; 5]| spec_count_face(dice + h@, p.face) < p.quantity
}

/// A challenge scores two halves for each hand among the first `n` against
/// which the bid is false over both hands together, and nothing for the others.
pub proof fn lemma_challenge_wins_count(dice: Seq<u32>, hands: Seq<[u32; 5]>, p: Bid, n: int)
    requires
        0 <= n <= hands.len(),
    ensures
        challenge_wins(dice, hands, p, n) == 2 * hands.take(n).filter(bid_false_with(dice, p)).len(),
    decreases n,
{
    reveal(Seq::filter);
    if n > 0 {
        lemma_challenge_wins_count(dice, hands, p, n - 1);
        let t = hands.take(n);
        assert(t.drop_last() =~= hands.take(n - 1));
        assert(t.last() == hands[n - 1]);
        crate::dice::lemma_count_face_concat(dice, hands[n - 1]@, p.face);
    }
}

/// The counter's score of a challenge: two halves for each consistent hand
/// against which the last bid is false over our dice and that hand together.
pub proof fn lemma_challenge_score(ctx: &Context, hands: Seq<[u32; 5]>, p: Bid)
    requires
        spec_last_bid(ctx.history@) == Some(p),
    ensures
        action_score(ctx, hands, Move::Challenge) == 2 * hands.filter(bid_false_with(ctx.my_dice@, p)).len(),
{
    lemma_challenge_wins_count(ctx.my_dice@, hands, p, hands.len() as int);
    assert(hands.take(hands.len() as int) =~= hands);
}

} // verus!
