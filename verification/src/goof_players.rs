//! Goofspiel players: fixed rules, rank-based bidders and bidders that adapt
//! to what the opponent has shown.
//!
//! A hand, like the trophies in play, is a set of distinct cards, so "the
//! card at rank k" of a hand is the one card with exactly k cards of the
//! hand below it: the k-th entry of the hand sorted ascending.
use crate::cards::{
    add_card, bm_from_slice, card_count, count_below, count_less, holds_card, lemma_count_less_mask,
    lemma_has_zero, lemma_len_popcount, lowest_card, nth_card, remove_card, small_cards,
};
use crate::goof_game::{card_list, Context, Round, Strategy};
use crate::rng::{gen_index, gen_range_inclusive_i32};
use rand::rngs::StdRng;
use vstd::prelude::*;

verus! {

// ---------------------------------------------------------------- model

/// Highest entry of `s` (-1 when `s` is empty).
pub open spec fn top(s: Seq<u8>) -> int
    decreases s.len(),
{
    if s.len() == 0 {
        -1
    } else {
        let t = top(s.drop_last());
        if s.last() as int > t {
            s.last() as int
        } else {
            t
        }
    }
}

/// Lowest entry of `s` (256 when `s` is empty).
pub open spec fn bottom(s: Seq<u8>) -> int
    decreases s.len(),
{
    if s.len() == 0 {
        256
    } else {
        let b = bottom(s.drop_last());
        if (s.last() as int) < b {
            s.last() as int
        } else {
            b
        }
    }
}

/// `c` is the card of `s` with exactly `k` cards of `s` below it.
pub open spec fn at_rank(s: Seq<u8>, k: int, c: u8) -> bool {
    s.contains(c) && count_less(s, c as int) == k
}

/// Rank of the current trophy among the trophies in play (it and those to come).
pub open spec fn trophy_rank(ctx: &Context) -> int {
    count_less(ctx.trophy_cards@, ctx.current_trophy as int) as int
}

/// `x` clamped to `0..=hi`.
pub open spec fn clamp_rank(x: int, hi: int) -> int {
    if x < 0 {
        0
    } else if x > hi {
        hi
    } else {
        x
    }
}

/// The hand rank a bid at `offset` ranks above the trophy's rank aims at.
pub open spec fn offset_rank(ctx: &Context, offset: int) -> int {
    clamp_rank(trophy_rank(ctx) + offset, ctx.your_cards@.len() - 1)
}

/// The smallest card of `s` above `p`, or the lowest card of `s` when none is.
pub open spec fn cheapest_above(s: Seq<u8>, p: int, r: u8) -> bool {
    if exists|i: int| 0 <= i < s.len() && s[i] > p {
        &&& s.contains(r)
        &&& r > p
        &&& forall|i: int| 0 <= i < s.len() && s[i] > p ==> r <= s[i]
    } else {
        r == bottom(s)
    }
}

/// The highest card is one of the cards and no card is higher.
pub proof fn lemma_top(s: Seq<u8>)
    requires
        s.len() > 0,
    ensures
        s.contains(top(s) as u8),
        0 <= top(s) <= 255,
        forall|i: int| 0 <= i < s.len() ==> s[i] <= top(s),
    decreases s.len(),
{
    let t = s.drop_last();
    assert(s[s.len() - 1] == s.last());
    if t.len() > 0 {
        lemma_top(t);
        let k = choose|k: int| 0 <= k < t.len() && t[k] == top(t) as u8;
        assert(s[k] == t[k]);
        assert forall|i: int| 0 <= i < s.len() implies s[i] <= top(s) by {
            if i < t.len() {
                assert(s[i] == t[i]);
            }
        }
    }
}

/// The lowest card is one of the cards and no card is lower.
pub proof fn lemma_bottom(s: Seq<u8>)
    requires
        s.len() > 0,
    ensures
        s.contains(bottom(s) as u8),
        0 <= bottom(s) <= 255,
        forall|i: int| 0 <= i < s.len() ==> s[i] >= bottom(s),
    decreases s.len(),
{
    let t = s.drop_last();
    assert(s[s.len() - 1] == s.last());
    if t.len() > 0 {
        lemma_bottom(t);
        let k = choose|k: int| 0 <= k < t.len() && t[k] == bottom(t) as u8;
        assert(s[k] == t[k]);
        assert forall|i: int| 0 <= i < s.len() implies s[i] >= bottom(s) by {
            if i < t.len() {
                assert(s[i] == t[i]);
            }
        }
    }
}

/// A set of cards holds its lowest card at rank 0.
pub proof fn lemma_bottom_rank(s: Seq<u8>)
    requires
        s.len() > 0,
    ensures
        count_less(s, bottom(s)) == 0,
{
    lemma_bottom(s);
    lemma_count_less_none(s, bottom(s));
}

proof fn lemma_count_less_none(s: Seq<u8>, x: int)
    requires
        forall|i: int| 0 <= i < s.len() ==> s[i] >= x,
    ensures
        count_less(s, x) == 0,
    decreases s.len(),
{
    if s.len() > 0 {
        let t = s.drop_last();
        assert forall|i: int| 0 <= i < t.len() implies t[i] >= x by {
            assert(t[i] == s[i]);
        }
        lemma_count_less_none(t, x);
        assert(s[s.len() - 1] >= x);
    }
}

// ---------------------------------------------------------------- helpers

/// The lowest card of a non-empty list.
pub fn lowest(cards: &Vec<u8>) -> (r: u8)
    requires
        cards@.len() > 0,
    ensures
        r == bottom(cards@),
{
    let mut best = cards[0];
    let mut i: usize = 1;
    proof {
        assert(cards@.take(1).drop_last() =~= Seq::<u8>::empty());
        assert(cards@.take(1).last() == cards@[0]);
        assert(bottom(cards@.take(1).drop_last()) == 256);
    }
    while i < cards.len()
        invariant
            1 <= i <= cards@.len(),
            best == bottom(cards@.take(i as int)),
        decreases cards@.len() - i,
    {
        proof {
            assert(cards@.take(i + 1).drop_last() =~= cards@.take(i as int));
        }
        if cards[i] < best {
            best = cards[i];
        }
        i = i + 1;
    }
    proof {
        assert(cards@.take(cards@.len() as int) =~= cards@);
    }
    best
}

/// The highest card of a non-empty list.
pub fn highest(cards: &Vec<u8>) -> (r: u8)
    requires
        cards@.len() > 0,
    ensures
        r == top(cards@),
{
    let mut best = cards[0];
    let mut i: usize = 1;
    proof {
        assert(cards@.take(1).drop_last() =~= Seq::<u8>::empty());
        assert(cards@.take(1).last() == cards@[0]);
        assert(top(cards@.take(1).drop_last()) == -1);
    }
    while i < cards.len()
        invariant
            1 <= i <= cards@.len(),
            best == top(cards@.take(i as int)),
        decreases cards@.len() - i,
    {
        proof {
            assert(cards@.take(i + 1).drop_last() =~= cards@.take(i as int));
        }
        if cards[i] > best {
            best = cards[i];
        }
        i = i + 1;
    }
    proof {
        assert(cards@.take(cards@.len() as int) =~= cards@);
    }
    best
}

/// The smallest card of the hand above `p`, or the lowest card when none is.
pub fn cheapest_card_above(cards: &Vec<u8>, p: i32) -> (r: u8)
    requires
        cards@.len() > 0,
    ensures
        cheapest_above(cards@, p as int, r),
{
    let mut found: bool = false;
    let mut best: u8 = 0;
    let mut i: usize = 0;
    while i < cards.len()
        invariant
            i <= cards@.len(),
            found <==> exists|j: int| 0 <= j < i && cards@[j] > p,
            found ==> (cards@.contains(best) && best > p && forall|j: int|
                0 <= j < i && cards@[j] > p ==> best <= cards@[j]),
        decreases cards@.len() - i,
    {
        let c = cards[i];
        if (c as i32) > p && (!found || c < best) {
            best = c;
            found = true;
            proof {
                assert(cards@[i as int] == c);
            }
        }
        i = i + 1;
    }
    if found {
        best
    } else {
        lowest(cards)
    }
}

/// The card of the hand at the trophy's rank shifted by `offset`, the target
/// rank clamped to the hand.
pub fn rank_offset_bid(ctx: &Context, offset: i32) -> (r: u8)
    requires
        ctx.well_formed(),
    ensures
        at_rank(ctx.your_cards@, offset_rank(ctx, offset as int), r),
{
    proof {
        assert(small_cards(ctx.your_cards@));
        assert(small_cards(ctx.trophy_cards@));
    }
    let hand = bm_from_slice(ctx.your_cards.as_slice());
    let trophies = bm_from_slice(ctx.trophy_cards.as_slice());
    let rank = count_below(trophies, ctx.current_trophy as u16);
    let size = card_count(hand);
    proof {
        lemma_count_less_mask(ctx.trophy_cards@, trophies, ctx.current_trophy as nat);
        lemma_len_popcount(ctx.your_cards@, hand);
    }
    let t: i64 = rank as i64 + offset as i64;
    let hi: i64 = size as i64 - 1;
    let target: i64 = if t < 0 {
        0
    } else if t > hi {
        hi
    } else {
        t
    };
    let c = nth_card(hand, target as u32);
    proof {
        lemma_count_less_mask(ctx.your_cards@, hand, c as nat);
        assert(ctx.your_cards@.contains(c as u8));
    }
    c as u8
}


proof fn lemma_count_less_le_len(s: Seq<u8>, x: int)
    ensures
        count_less(s, x) <= s.len(),
    decreases s.len(),
{
    if s.len() > 0 {
        lemma_count_less_le_len(s.drop_last(), x);
    }
}

/// The trophy's rank is a rank of the hand: the hand holds one card per trophy in play.
proof fn lemma_trophy_rank_fits(ctx: &Context)
    requires
        ctx.well_formed(),
    ensures
        0 <= trophy_rank(ctx) < ctx.your_cards@.len(),
        offset_rank(ctx, 0) == trophy_rank(ctx),
{
    lemma_count_less_le_len(ctx.trophy_cards@, ctx.current_trophy as int);
}

/// The lowest card is played when the round is already decided: every card of
/// ours beats every card of theirs, or none of ours beats any of theirs.
pub open spec fn round_decided(ctx: &Context) -> bool {
    ||| bottom(ctx.your_cards@) > top(ctx.their_cards@)
    ||| top(ctx.your_cards@) < bottom(ctx.their_cards@)
}

/// Whether every card of ours beats every card of theirs, or none beats any.
pub fn decided(ctx: &Context) -> (r: bool)
    requires
        ctx.well_formed(),
    ensures
        r == round_decided(ctx),
{
    let my_low = lowest(&ctx.your_cards);
    let my_high = highest(&ctx.your_cards);
    let their_low = lowest(&ctx.their_cards);
    let their_high = highest(&ctx.their_cards);
    my_low > their_high || my_high < their_low
}

// ---------------------------------------------------------------- fixed rules

/// Always plays its lowest card.
pub struct AlwaysLow;

impl Strategy for AlwaysLow {
    fn name(&self) -> (r: &str)
        ensures
            r@ == "always-low"@,
    {
        "always-low"
    }

    open spec fn may_pick(
        your_cards: Seq<u8>,
        their_cards: Seq<u8>,
        trophy_cards: Seq<u8>,
        current_trophy: u8,
        history: Seq<Round>,
        r: u8,
    ) -> bool {
        r == bottom(your_cards)
    }

    fn pick(&mut self, ctx: &Context) -> (r: u8)
        ensures
            r == bottom(ctx.your_cards@),
    {
        proof {
            lemma_bottom(ctx.your_cards@);
        }
        lowest(&ctx.your_cards)
    }
}

/// Always plays its highest card.
pub struct AlwaysHigh;

impl Strategy for AlwaysHigh {
    fn name(&self) -> (r: &str)
        ensures
            r@ == "always-high"@,
    {
        "always-high"
    }

    open spec fn may_pick(
        your_cards: Seq<u8>,
        their_cards: Seq<u8>,
        trophy_cards: Seq<u8>,
        current_trophy: u8,
        history: Seq<Round>,
        r: u8,
    ) -> bool {
        r == top(your_cards)
    }

    fn pick(&mut self, ctx: &Context) -> (r: u8)
        ensures
            r == top(ctx.your_cards@),
    {
        proof {
            lemma_top(ctx.your_cards@);
        }
        highest(&ctx.your_cards)
    }
}

/// Distance between a card and the trophy.
pub open spec fn gap(c: u8, t: u8) -> int {
    if c >= t {
        c - t
    } else {
        t - c
    }
}

/// `r` is the card of `s` closest to `t`, the higher one of two equally close.
pub open spec fn closest_card(s: Seq<u8>, t: u8, r: u8) -> bool {
    &&& s.contains(r)
    &&& forall|i: int|
        0 <= i < s.len() ==> gap(s[i], t) > gap(r, t) || (gap(s[i], t) == gap(r, t) && s[i] <= r)
}

/// Bids the card closest in value to the current trophy; of two equally
/// close cards, the higher.
pub struct MatchTrophy;

impl Strategy for MatchTrophy {
    fn name(&self) -> (r: &str)
        ensures
            r@ == "match-trophy"@,
    {
        "match-trophy"
    }

    open spec fn may_pick(
        your_cards: Seq<u8>,
        their_cards: Seq<u8>,
        trophy_cards: Seq<u8>,
        current_trophy: u8,
        history: Seq<Round>,
        r: u8,
    ) -> bool {
        closest_card(your_cards, current_trophy, r)
    }

    fn pick(&mut self, ctx: &Context) -> (r: u8)
        ensures
            closest_card(ctx.your_cards@, ctx.current_trophy, r),
    {
        let t = ctx.current_trophy as i32;
        let cards = &ctx.your_cards;
        let mut best = cards[0];
        let mut best_dist: i32 = if (best as i32) >= t {
            best as i32 - t
        } else {
            t - best as i32
        };
        let mut i: usize = 0;
        proof {
            assert(cards@[0] == best);
        }
        while i < cards.len()
            invariant
                i <= cards@.len(),
                cards@.len() > 0,
                t == ctx.current_trophy,
                cards@.contains(best),
                best_dist == gap(best, ctx.current_trophy),
                forall|j: int|
                    0 <= j < i ==> gap(cards@[j], ctx.current_trophy) > gap(best, ctx.current_trophy) || (gap(
                        cards@[j],
                        ctx.current_trophy,
                    ) == gap(best, ctx.current_trophy) && cards@[j] <= best),
            decreases cards@.len() - i,
        {
            let c = cards[i];
            let d: i32 = if (c as i32) >= t {
                c as i32 - t
            } else {
                t - c as i32
            };
            if d < best_dist || (d == best_dist && c > best) {
                best = c;
                best_dist = d;
                proof {
                    assert(cards@[i as int] == c);
                }
            }
            i = i + 1;
        }
        best
    }
}

// ---------------------------------------------------------------- rank bidders

/// The rank-proportional bid: the card whose rank in the hand is the current
/// trophy's rank among the trophies in play.
pub fn fallback_move(ctx: &Context) -> (r: u8)
    requires
        ctx.well_formed(),
    ensures
        at_rank(ctx.your_cards@, trophy_rank(ctx), r),
{
    proof {
        lemma_trophy_rank_fits(ctx);
    }
    rank_offset_bid(ctx, 0)
}

/// Bids the card of the trophy's rank.
pub struct RankProportional;

impl Strategy for RankProportional {
    fn name(&self) -> (r: &str)
        ensures
            r@ == "rank-proportional"@,
    {
        "rank-proportional"
    }

    fn pick(&mut self, ctx: &Context) -> (r: u8)
        ensures
            at_rank(ctx.your_cards@, trophy_rank(ctx), r),
    {
        fallback_move(ctx)
    }
}

/// Bids one rank above the trophy's, or the top card when already at the top.
pub struct RankPlusOne;

impl Strategy for RankPlusOne {
    fn name(&self) -> (r: &str)
        ensures
            r@ == "rank-plus-one"@,
    {
        "rank-plus-one"
    }

    fn pick(&mut self, ctx: &Context) -> (r: u8)
        ensures
            at_rank(
                ctx.your_cards@,
                if trophy_rank(ctx) + 1 < ctx.your_cards@.len() {
                    trophy_rank(ctx) + 1
                } else {
                    trophy_rank(ctx)
                },
                r,
            ),
    {
        proof {
            lemma_trophy_rank_fits(ctx);
        }
        rank_offset_bid(ctx, 1)
    }
}

/// Takes a decided round with its lowest card, else bids rank-proportionally.
pub struct Greedy;

impl Strategy for Greedy {
    fn name(&self) -> (r: &str)
        ensures
            r@ == "greedy"@,
    {
        "greedy"
    }

    fn pick(&mut self, ctx: &Context) -> (r: u8)
        ensures
            if round_decided(ctx) {
                r == bottom(ctx.your_cards@)
            } else {
                at_rank(ctx.your_cards@, trophy_rank(ctx), r)
            },
    {
        proof {
            lemma_bottom(ctx.your_cards@);
        }
        if decided(ctx) {
            return lowest(&ctx.your_cards);
        }
        fallback_move(ctx)
    }
}

/// Bids one rank below the trophy's, saving a higher card for later.
pub struct RankMinusOne;

impl Strategy for RankMinusOne {
    fn name(&self) -> (r: &str)
        ensures
            r@ == "rank-minus-one"@,
    {
        "rank-minus-one"
    }

    fn pick(&mut self, ctx: &Context) -> (r: u8)
        ensures
            at_rank(ctx.your_cards@, offset_rank(ctx, -1), r),
    {
        rank_offset_bid(ctx, -1)
    }
}

/// Bids two ranks above the trophy's.
pub struct RankPlusTwo;

impl Strategy for RankPlusTwo {
    fn name(&self) -> (r: &str)
        ensures
            r@ == "rank-plus-two"@,
    {
        "rank-plus-two"
    }

    fn pick(&mut self, ctx: &Context) -> (r: u8)
        ensures
            at_rank(ctx.your_cards@, offset_rank(ctx, 2), r),
    {
        rank_offset_bid(ctx, 2)
    }
}

/// Each round draws an offset from -1, 0, 1, 2 and bids at that offset.
pub struct MixedProp {
    pub rng: StdRng,
}

impl Strategy for MixedProp {
    fn name(&self) -> (r: &str)
        ensures
            r@ == "mixed-prop"@,
    {
        "mixed-prop"
    }

    fn pick(&mut self, ctx: &Context) -> (r: u8)
        ensures
            exists|o: int| -1 <= o <= 2 && at_rank(ctx.your_cards@, offset_rank(ctx, o), r),
    {
        let offset = gen_range_inclusive_i32(&mut self.rng, -1, 2);
        rank_offset_bid(ctx, offset)
    }
}

/// Plays a card of its hand drawn at random.
pub struct Random {
    pub rng: StdRng,
}

impl Strategy for Random {
    fn name(&self) -> (r: &str)
        ensures
            r@ == "random"@,
    {
        "random"
    }

    fn pick(&mut self, ctx: &Context) -> (r: u8) {
        let i = gen_index(&mut self.rng, ctx.your_cards.len());
        proof {
            assert(ctx.your_cards@[i as int] == ctx.your_cards[i as int]);
        }
        ctx.your_cards[i]
    }
}

// ---------------------------------------------------------------- adapting to the opponent

/// Sum over the rounds of how far the opponent's card lay above the trophy.
pub open spec fn offset_total(h: Seq<Round>) -> int
    decreases h.len(),
{
    if h.len() == 0 {
        0
    } else {
        offset_total(h.drop_last()) + (h.last().them as int - h.last().trophy as int)
    }
}

/// At least two rounds were played and the opponent's mean offset is at
/// least one half: it bids above the trophies.
pub open spec fn overbidder(h: Seq<Round>) -> bool {
    h.len() >= 2 && 2 * offset_total(h) >= h.len()
}

/// The current trophy is at or above the median of the trophies in play.
pub open spec fn upper_half(ctx: &Context) -> bool {
    trophy_rank(ctx) >= (ctx.trophy_cards@.len() + 1) / 2
}

/// The current trophy is the highest in play.
pub open spec fn top_trophy(ctx: &Context) -> bool {
    ctx.current_trophy > top(ctx.trophy_cards@)
}

/// Against an overbidder, give up the low half of the trophies and take the
/// high half two ranks up; otherwise bid one rank up.
pub open spec fn adaptive_offset(ctx: &Context) -> int {
    if overbidder(ctx.history@) {
        if upper_half(ctx) {
            2
        } else {
            -1
        }
    } else {
        1
    }
}

/// The choice of the second adaptive bidder once the round is not decided.
pub open spec fn mean_rule(ctx: &Context, r: u8) -> bool {
    if ctx.history@.len() < 2 || !overbidder(ctx.history@) {
        at_rank(ctx.your_cards@, offset_rank(ctx, 1), r)
    } else if top_trophy(ctx) && top(ctx.your_cards@) <= top(ctx.their_cards@) {
        r == bottom(ctx.your_cards@)
    } else {
        at_rank(ctx.your_cards@, offset_rank(ctx, adaptive_offset(ctx)), r)
    }
}

/// Whether the opponent has been bidding above the trophies on average.
pub fn is_overbidder(h: &Vec<Round>) -> (r: bool)
    ensures
        r == overbidder(h@),
{
    let n = h.len();
    if n < 2 {
        return false;
    }
    let mut total: i128 = 0;
    let mut i: usize = 0;
    while i < n
        invariant
            n == h@.len(),
            i <= n,
            total == offset_total(h@.take(i as int)),
            -256 * i <= total <= 256 * i,
        decreases n - i,
    {
        proof {
            assert(h@.take(i + 1).drop_last() =~= h@.take(i as int));
        }
        total = total + (h[i].them as i128 - h[i].trophy as i128);
        i = i + 1;
    }
    proof {
        assert(h@.take(n as int) =~= h@);
    }
    2 * total >= n as i128
}

fn in_upper_half(ctx: &Context) -> (r: bool)
    requires
        ctx.well_formed(),
    ensures
        r == upper_half(ctx),
{
    proof {
        assert(small_cards(ctx.trophy_cards@));
    }
    let trophies = bm_from_slice(ctx.trophy_cards.as_slice());
    let rank = count_below(trophies, ctx.current_trophy as u16);
    proof {
        lemma_count_less_mask(ctx.trophy_cards@, trophies, ctx.current_trophy as nat);
    }
    rank as usize >= ctx.trophy_cards.len() / 2 + ctx.trophy_cards.len() % 2
}

fn is_top_trophy(ctx: &Context) -> (r: bool)
    ensures
        r == top_trophy(ctx),
{
    if ctx.trophy_cards.len() == 0 {
        true
    } else {
        ctx.current_trophy > highest(&ctx.trophy_cards)
    }
}

fn mean_rule_pick(ctx: &Context) -> (r: u8)
    requires
        ctx.well_formed(),
    ensures
        mean_rule(ctx, r),
{
    if ctx.history.len() < 2 || !is_overbidder(&ctx.history) {
        return rank_offset_bid(ctx, 1);
    }
    if is_top_trophy(ctx) && highest(&ctx.your_cards) <= highest(&ctx.their_cards) {
        return lowest(&ctx.your_cards);
    }
    let offset: i32 = if in_upper_half(ctx) {
        2
    } else {
        -1
    };
    rank_offset_bid(ctx, offset)
}

/// Reads the opponent's mean offset over the rounds so far and counters it.
pub struct Adaptive;

impl Strategy for Adaptive {
    fn name(&self) -> (r: &str)
        ensures
            r@ == "adaptive"@,
    {
        "adaptive"
    }

    fn pick(&mut self, ctx: &Context) -> (r: u8)
        ensures
            at_rank(ctx.your_cards@, offset_rank(ctx, adaptive_offset(ctx)), r),
    {
        if ctx.history.len() < 2 || !is_overbidder(&ctx.history) {
            return rank_offset_bid(ctx, 1);
        }
        let offset: i32 = if in_upper_half(ctx) {
            2
        } else {
            -1
        };
        rank_offset_bid(ctx, offset)
    }
}

/// `Adaptive` with the decided-round shortcuts, and against an overbidder no
/// top card spent on the top trophy when it can at best tie.
pub struct AdaptiveV2;

impl Strategy for AdaptiveV2 {
    fn name(&self) -> (r: &str)
        ensures
            r@ == "adaptive-v2"@,
    {
        "adaptive-v2"
    }

    fn pick(&mut self, ctx: &Context) -> (r: u8)
        ensures
            if round_decided(ctx) {
                r == bottom(ctx.your_cards@)
            } else {
                mean_rule(ctx, r)
            },
    {
        proof {
            lemma_bottom(ctx.your_cards@);
        }
        if decided(ctx) {
            return lowest(&ctx.your_cards);
        }
        mean_rule_pick(ctx)
    }
}

// ---------------------------------------------------------------- constant-offset detector

/// The opponent played card `c` in one of the first `i` rounds.
pub open spec fn played_before(h: Seq<Round>, i: int, c: int) -> bool {
    exists|j: int| 0 <= j < i && h[j].them == c
}

/// The opponent's lowest card from `c` up still in hand before round `i`
/// (16 when none is left).
pub open spec fn lowest_unplayed_from(h: Seq<Round>, i: int, c: int) -> int
    decreases 14 - c,
{
    if c > 13 {
        16
    } else if played_before(h, i, c) {
        lowest_unplayed_from(h, i, c + 1)
    } else {
        c
    }
}

/// In round `i` the opponent threw away its lowest card on a trophy above it.
pub open spec fn is_throw(h: Seq<Round>, i: int) -> bool {
    &&& h[i].them as int == lowest_unplayed_from(h, i, 1)
    &&& h[i].them < h[i].trophy
}

/// The opponent's offsets (card minus trophy) in the first `n` rounds that
/// were not throws, in order.
pub open spec fn steady_offsets(h: Seq<Round>, n: int) -> Seq<int>
    decreases n,
{
    if n <= 0 {
        Seq::empty()
    } else if is_throw(h, n - 1) {
        steady_offsets(h, n - 1)
    } else {
        steady_offsets(h, n - 1).push(h[n - 1].them as int - h[n - 1].trophy as int)
    }
}

/// One of the first `n` rounds was a throw.
pub open spec fn throw_seen(h: Seq<Round>, n: int) -> bool {
    exists|i: int| 0 <= i < n && is_throw(h, i)
}

/// The opponent's constant offset: when every round that was not a throw had
/// the same offset `k`, that `k`, how many such rounds there were, and whether
/// a throw was seen; nothing when there was no such round or two differed.
pub open spec fn offset_pattern(h: Seq<Round>) -> Option<(int, nat, bool)> {
    let d = steady_offsets(h, h.len() as int);
    if d.len() == 0 || exists|j: int| 0 <= j < d.len() && #[trigger] d[j] != d[0] {
        None
    } else {
        Some((d[0], d.len(), throw_seen(h, h.len() as int)))
    }
}

proof fn lemma_steady_prefix(h: Seq<Round>, n: int, m: int)
    requires
        0 <= n <= m,
    ensures
        steady_offsets(h, n).len() <= steady_offsets(h, m).len(),
        forall|j: int| 0 <= j < steady_offsets(h, n).len() ==> steady_offsets(h, m)[j] == steady_offsets(h, n)[j],
    decreases m - n,
{
    if n < m {
        lemma_steady_prefix(h, n, m - 1);
    }
}

/// The mask `m` holds exactly the opponent's cards 1..=13 not played in the
/// first `i` rounds.
pub open spec fn unplayed_mask(h: Seq<Round>, i: int, m: u16) -> bool {
    forall|d: u16| d < 16 ==> (holds_card(m, d) <==> (1 <= d <= 13 && !played_before(h, i, d as int)))
}

proof fn lemma_lowest_unplayed(h: Seq<Round>, i: int, m: u16, r: u16, c: int)
    requires
        unplayed_mask(h, i, m),
        r <= 16,
        r < 16 ==> holds_card(m, r),
        forall|x: u16| x < r ==> !holds_card(m, x),
        1 <= c <= 14,
        c <= r,
    ensures
        lowest_unplayed_from(h, i, c) == r,
    decreases 14 - c,
{
    if c <= 13 {
        assert(holds_card(m, c as u16) <==> !played_before(h, i, c));
        if played_before(h, i, c) {
            if c == r {
                assert(holds_card(m, r));
            }
            lemma_lowest_unplayed(h, i, m, r, c + 1);
        } else {
            if c < r {
                assert(!holds_card(m, c as u16));
            }
        }
    } else {
        if r < 16 {
            assert(holds_card(m, r));
        }
    }
}

/// Playing card `h[i].them` in round `i` takes it out of the opponent's hand.
pub proof fn lemma_unplayed_step(h: Seq<Round>, i: int, m: u16, m2: u16)
    requires
        0 <= i < h.len(),
        unplayed_mask(h, i, m),
        forall|d: u16| d < 16 ==> holds_card(m2, d) == (holds_card(m, d) && d != h[i].them as u16),
        h[i].them < 16,
    ensures
        unplayed_mask(h, i + 1, m2),
{
    assert forall|d: u16| d < 16 implies (holds_card(m2, d) <==> (1 <= d <= 13 && !played_before(
        h,
        i + 1,
        d as int,
    ))) by {
        if played_before(h, i, d as int) {
            let j = choose|j: int| 0 <= j < i && h[j].them == d as int;
            assert(0 <= j < i + 1 && h[j].them == d as int);
        }
        if played_before(h, i + 1, d as int) {
            let j = choose|j: int| 0 <= j < i + 1 && h[j].them == d as int;
            if j < i {
                assert(played_before(h, i, d as int));
            }
        }
        if d == h[i].them as u16 {
            assert(0 <= i < i + 1 && h[i].them == d as int);
        }
    }
}

/// Scans the history for a constant offset of the opponent's card over the
/// trophy, leaving out throws: rounds where the opponent played its lowest
/// card on a trophy above it. Returns the offset, the number of rounds that
/// agree and whether a throw was seen.
pub fn detect_constant_offset(history: &Vec<Round>) -> (r: Option<(i32, usize, bool)>)
    requires
        forall|i: int| 0 <= i < history@.len() ==> (#[trigger] history@[i]).them < 16,
    ensures
        match r {
            None => offset_pattern(history@) is None,
            Some(t) => offset_pattern(history@) == Some((t.0 as int, t.1 as nat, t.2)),
        },
{
    let ghost h = history@;
    if history.len() == 0 {
        return None;
    }
    let mut opp_hand: u16 = 0;
    let mut c: u16 = 1;
    proof {
        assert forall|d: u16| d < 16 implies !holds_card(opp_hand, d) by {
            lemma_has_zero(d);
        }
    }
    while c <= 13
        invariant
            1 <= c <= 14,
            forall|d: u16| d < 16 ==> (holds_card(opp_hand, d) <==> 1 <= d < c),
        decreases 14 - c,
    {
        opp_hand = add_card(opp_hand, c);
        c = c + 1;
    }
    let mut k: Option<i32> = None;
    let mut conf: usize = 0;
    let mut observed_throw = false;
    let mut i: usize = 0;
    while i < history.len()
        invariant
            h == history@,
            i <= h.len(),
            forall|j: int| 0 <= j < h.len() ==> (#[trigger] h[j]).them < 16,
            unplayed_mask(h, i as int, opp_hand),
            conf == steady_offsets(h, i as int).len(),
            conf <= i,
            match k {
                None => conf == 0,
                Some(v) => conf > 0 && v == steady_offsets(h, i as int)[0],
            },
            forall|j: int|
                0 <= j < steady_offsets(h, i as int).len() ==> #[trigger] steady_offsets(h, i as int)[j]
                    == steady_offsets(h, i as int)[0],
            observed_throw == throw_seen(h, i as int),
        decreases h.len() - i,
    {
        let r = history[i];
        let delta: i32 = r.them as i32 - r.trophy as i32;
        let opp_min = lowest_card(opp_hand);
        proof {
            lemma_lowest_unplayed(h, i as int, opp_hand, opp_min, 1);
            assert(h[i as int] == r);
        }
        let was_throw = r.them as u16 == opp_min && delta < 0;
        let ghost old_hand = opp_hand;
        opp_hand = remove_card(opp_hand, r.them as u16);
        proof {
            assert forall|d: u16| d < 16 implies (holds_card(opp_hand, d) <==> (1 <= d <= 13 && !played_before(
                h,
                i + 1,
                d as int,
            ))) by {
                if played_before(h, i as int, d as int) {
                    let j = choose|j: int| 0 <= j < i && h[j].them == d as int;
                    assert(0 <= j < i + 1 && h[j].them == d as int);
                }
                if played_before(h, i + 1, d as int) {
                    let j = choose|j: int| 0 <= j < i + 1 && h[j].them == d as int;
                    if j < i {
                        assert(played_before(h, i as int, d as int));
                    }
                }
                if d == r.them as u16 {
                    assert(0 <= i < i + 1 && h[i as int].them == d as int);
                }
            }
            assert(was_throw == is_throw(h, i as int));
            if was_throw {
                assert(steady_offsets(h, i + 1) == steady_offsets(h, i as int));
                assert(throw_seen(h, i + 1));
            } else {
                assert(steady_offsets(h, i + 1) == steady_offsets(h, i as int).push(delta as int));
                assert(throw_seen(h, i + 1) == throw_seen(h, i as int)) by {
                    if throw_seen(h, i + 1) {
                        let j = choose|j: int| 0 <= j < i + 1 && is_throw(h, j);
                        assert(j != i);
                    }
                }
            }
        }
        if was_throw {
            observed_throw = true;
        } else {
            match k {
                None => {
                    k = Some(delta);
                    conf = 1;
                },
                Some(prev) => {
                    if prev == delta {
                        conf = conf + 1;
                    } else {
                        proof {
                            let d = steady_offsets(h, i + 1);
                            lemma_steady_prefix(h, i + 1, h.len() as int);
                            let full = steady_offsets(h, h.len() as int);
                            assert(full[d.len() - 1] == delta);
                            assert(full[0] == prev);
                        }
                        return None;
                    }
                },
            }
        }
        i = i + 1;
    }
    match k {
        None => None,
        Some(kk) => Some((kk, conf, observed_throw)),
    }
}

/// A card value the opponent can still play: a card value it holds.
pub open spec fn opp_can_play(ctx: &Context, v: int) -> bool {
    1 <= v <= 13 && ctx.their_cards@.contains(v as u8)
}

/// The third adaptive bidder once the round is not decided: against a
/// constant offset `k`, beat the predicted card as cheaply as possible; when
/// that card is gone but the opponent was seen throwing, beat its lowest card
/// as cheaply as possible; otherwise the mean rule.
pub open spec fn pattern_rule(ctx: &Context, r: u8) -> bool {
    match offset_pattern(ctx.history@) {
        Some((k, conf, thrown)) => {
            if opp_can_play(ctx, ctx.current_trophy + k) {
                cheapest_above(ctx.your_cards@, ctx.current_trophy + k, r)
            } else if conf >= 2 && thrown {
                cheapest_above(ctx.your_cards@, bottom(ctx.their_cards@), r)
            } else {
                mean_rule(ctx, r)
            }
        },
        None => mean_rule(ctx, r),
    }
}

/// Whether `cards` holds `x`.
pub fn holds_value(cards: &Vec<u8>, x: u8) -> (r: bool)
    ensures
        r == cards@.contains(x),
{
    let mut i: usize = 0;
    while i < cards.len()
        invariant
            i <= cards@.len(),
            forall|j: int| 0 <= j < i ==> cards@[j] != x,
        decreases cards@.len() - i,
    {
        if cards[i] == x {
            proof {
                assert(cards@[i as int] == x);
            }
            return true;
        }
        i = i + 1;
    }
    false
}

/// `AdaptiveV2` with a constant-offset detector in front: a predictable
/// opponent is beaten by the smallest card that does it.
pub struct AdaptiveV3;

impl Strategy for AdaptiveV3 {
    fn name(&self) -> (r: &str)
        ensures
            r@ == "adaptive-v3"@,
    {
        "adaptive-v3"
    }

    fn pick(&mut self, ctx: &Context) -> (r: u8)
        ensures
            if round_decided(ctx) {
                r == bottom(ctx.your_cards@)
            } else {
                pattern_rule(ctx, r)
            },
    {
        proof {
            lemma_bottom(ctx.your_cards@);
            lemma_bottom(ctx.their_cards@);
            assert forall|i: int| 0 <= i < ctx.history@.len() implies (#[trigger] ctx.history@[i]).them < 16 by {
                assert(crate::goof_game::round_ok(ctx.history@[i]));
            }
        }
        if decided(ctx) {
            return lowest(&ctx.your_cards);
        }
        match detect_constant_offset(&ctx.history) {
            Some((k, conf, observed_throw)) => {
                let predicted: i64 = ctx.current_trophy as i64 + k as i64;
                if 1 <= predicted && predicted <= 13 && holds_value(&ctx.their_cards, predicted as u8) {
                    return cheapest_card_above(&ctx.your_cards, predicted as i32);
                } else if conf >= 2 && observed_throw {
                    let opp_low = lowest(&ctx.their_cards);
                    return cheapest_card_above(&ctx.your_cards, opp_low as i32);
                }
            },
            None => {},
        }
        mean_rule_pick(ctx)
    }
}

} // verus!
