//! One-step lookahead for Goofspiel on bitmask card sets: an opponent model
//! read off the history, a play-out of the rest of the game against it, and
//! the bidder that picks the first card whose play-out scores best.
use crate::cards::{
    add_card, bm_from_slice, card_count, card_mask, cnt, count_below, has_card, holds_card, lemma_cnt_bounded,
    lemma_cnt_remove, lemma_cnt_strict, lemma_cnt_zero, lemma_empty_mask, lemma_has_zero, lemma_len_popcount,
    mask_of, nth_card, popcount, remove_card, small_cards,
};
use crate::goof_game::{Context, Round, Strategy};
use crate::goof_players::{
    bottom, decided, lemma_bottom, lemma_unplayed_step, lowest, played_before, round_decided, unplayed_mask,
};
use vstd::prelude::*;

verus! {

// ---------------------------------------------------------------- ranks in a mask

/// `c` is the card of `m` with exactly `k` cards of `m` below it.
pub open spec fn is_rank_card(m: u16, k: int, c: u16) -> bool {
    c < 16 && holds_card(m, c) && cnt(m, c as nat) == k
}

/// The card of `m` at rank `k` (meaningful for `k < popcount(m)`).
pub open spec fn card_of_rank(m: u16, k: int) -> u16 {
    choose|c: u16| is_rank_card(m, k, c)
}

/// Two cards of one mask at the same rank are the same card.
pub proof fn lemma_rank_card_unique(m: u16, k: int, c: u16)
    requires
        is_rank_card(m, k, c),
    ensures
        card_of_rank(m, k) == c,
{
    let d = card_of_rank(m, k);
    assert(is_rank_card(m, k, d));
    if d < c {
        lemma_cnt_strict(m, d, c as nat);
    } else if c < d {
        lemma_cnt_strict(m, c, d as nat);
    }
}

/// The card at rank `n` of `mask`, or 16 when `mask` has no more than `n` cards.
pub fn nth_set_bit(mask: u16, n: u32) -> (r: u8)
    ensures
        n < popcount(mask) ==> r == card_of_rank(mask, n as int),
        n >= popcount(mask) ==> r == 16,
        r <= 16,
{
    let size = card_count(mask);
    if n < size {
        let c = nth_card(mask, n);
        proof {
            lemma_rank_card_unique(mask, n as int, c);
        }
        c as u8
    } else {
        16
    }
}

/// `x` clamped to `lo..=hi`.
pub open spec fn clamp_int(x: int, lo: int, hi: int) -> int {
    if x < lo {
        lo
    } else if x > hi {
        hi
    } else {
        x
    }
}

/// The card of `hand` at the rank of `current` among `trophies_in_play`,
/// shifted by `offset` and clamped to the hand.
pub open spec fn rank_pick(hand: u16, trophies_in_play: u16, current: u16, offset: int) -> u16 {
    card_of_rank(hand, clamp_int(cnt(trophies_in_play, current as nat) + offset, 0, popcount(hand) - 1))
}

/// Bids the card of the hand at the current trophy's rank among the trophies
/// in play, shifted by `offset` and clamped to the hand.
pub fn rank_offset_pick_bm(hand: u16, trophies_in_play: u16, current: u8, offset: i32) -> (r: u8)
    requires
        popcount(hand) > 0,
        current < 16,
    ensures
        r as u16 == rank_pick(hand, trophies_in_play, current as u16, offset as int),
        r < 16,
        holds_card(hand, r as u16),
{
    let rank = count_below(trophies_in_play, current as u16);
    let size = card_count(hand);
    let t: i64 = rank as i64 + offset as i64;
    let hi: i64 = size as i64 - 1;
    let target: i64 = if t < 0 {
        0
    } else if t > hi {
        hi
    } else {
        t
    };
    let c = nth_card(hand, target as u32);
    proof {
        lemma_rank_card_unique(hand, target as int, c);
    }
    c as u8
}

/// What the opponent is predicted to do.
#[derive(Clone, Copy, PartialEq, Eq, Debug, Structural)]
pub enum OppPred {
    /// It plays its lowest card.
    AlwaysLow,
    /// It plays its highest card.
    AlwaysHigh,
    /// It plays the card of its hand at the trophy's rank shifted by this offset.
    RankOffset(i32),
}

/// The card the model predicts from `hand`.
pub open spec fn predicted_card(pred: OppPred, hand: u16, trophies_in_play: u16, current: u16) -> u16 {
    match pred {
        OppPred::AlwaysLow => card_of_rank(hand, 0),
        OppPred::AlwaysHigh => card_of_rank(hand, popcount(hand) - 1),
        OppPred::RankOffset(k) => rank_pick(hand, trophies_in_play, current, k as int),
    }
}

impl OppPred {
    /// The card the model predicts the opponent plays from `hand`.
    pub fn predict(&self, hand: u16, trophies_in_play: u16, current: u8) -> (r: u8)
        requires
            popcount(hand) > 0,
            current < 16,
        ensures
            r as u16 == predicted_card(*self, hand, trophies_in_play, current as u16),
            r < 16,
            holds_card(hand, r as u16),
    {
        match self {
            OppPred::AlwaysLow => {
                let c = nth_card(hand, 0);
                proof {
                    lemma_rank_card_unique(hand, 0, c);
                }
                c as u8
            },
            OppPred::AlwaysHigh => {
                let size = card_count(hand);
                let c = nth_card(hand, size - 1);
                proof {
                    lemma_rank_card_unique(hand, size - 1, c);
                }
                c as u8
            },
            OppPred::RankOffset(k) => rank_offset_pick_bm(hand, trophies_in_play, current, *k),
        }
    }
}

// ---------------------------------------------------------------- the opponent model

/// Number of the opponent's cards below `x` still in its hand before round `i`.
pub open spec fn opp_left_below(h: Seq<Round>, i: int, x: int) -> nat
    decreases x,
{
    if x <= 0 {
        0
    } else {
        opp_left_below(h, i, x - 1) + if 1 <= x - 1 <= 13 && !played_before(h, i, x - 1) {
            1nat
        } else {
            0nat
        }
    }
}

/// Trophy `c` was turned up in one of the first `i` rounds.
pub open spec fn trophy_before(h: Seq<Round>, i: int, c: int) -> bool {
    exists|j: int| 0 <= j < i && h[j].trophy == c
}

/// Number of trophies below `x` still in play at round `i`.
pub open spec fn trophies_left_below(h: Seq<Round>, i: int, x: int) -> nat
    decreases x,
{
    if x <= 0 {
        0
    } else {
        trophies_left_below(h, i, x - 1) + if 1 <= x - 1 <= 13 && !trophy_before(h, i, x - 1) {
            1nat
        } else {
            0nat
        }
    }
}

/// The mask `m` holds exactly the trophies 1..=13 not turned up in the first `i` rounds.
pub open spec fn trophy_mask(h: Seq<Round>, i: int, m: u16) -> bool {
    forall|d: u16| d < 16 ==> (holds_card(m, d) <==> (1 <= d <= 13 && !trophy_before(h, i, d as int)))
}

/// Rank of the opponent's card of round `i` in its hand then.
pub open spec fn opp_rank(h: Seq<Round>, i: int) -> int {
    opp_left_below(h, i, h[i].them as int) as int
}

/// Rank of the trophy of round `i` among the trophies then in play.
pub open spec fn trophy_rank_at(h: Seq<Round>, i: int) -> int {
    trophies_left_below(h, i, h[i].trophy as int) as int
}

/// In round `i` the opponent played its lowest card.
pub open spec fn played_min(h: Seq<Round>, i: int) -> bool {
    opp_rank(h, i) == 0
}

/// In round `i` the opponent played its highest card.
pub open spec fn played_max(h: Seq<Round>, i: int) -> bool {
    opp_rank(h, i) == opp_left_below(h, i, 16) - 1
}

/// In round `i` the opponent threw its lowest card on a trophy that was not the lowest.
pub open spec fn rank_throw(h: Seq<Round>, i: int) -> bool {
    played_min(h, i) && trophy_rank_at(h, i) > 0
}

/// The opponent's rank offsets (its card's rank minus the trophy's) over the
/// first `n` rounds that were not throws.
pub open spec fn rank_offsets(h: Seq<Round>, n: int) -> Seq<int>
    decreases n,
{
    if n <= 0 {
        Seq::empty()
    } else if rank_throw(h, n - 1) {
        rank_offsets(h, n - 1)
    } else {
        rank_offsets(h, n - 1).push(opp_rank(h, n - 1) - trophy_rank_at(h, n - 1))
    }
}

/// The opponent model read off a history: with two or more rounds all at the
/// opponent's lowest (or all at its highest) card, that; else a rank offset
/// shared by every round that was not a throw; else one rank up.
pub open spec fn model_of(h: Seq<Round>) -> OppPred {
    let ks = rank_offsets(h, h.len() as int);
    if h.len() == 0 {
        OppPred::RankOffset(1)
    } else if h.len() >= 2 && forall|i: int| 0 <= i < h.len() ==> played_min(h, i) {
        OppPred::AlwaysLow
    } else if h.len() >= 2 && forall|i: int| 0 <= i < h.len() ==> played_max(h, i) {
        OppPred::AlwaysHigh
    } else if ks.len() > 0 && forall|j: int| 0 <= j < ks.len() ==> #[trigger] ks[j] == ks[0] {
        OppPred::RankOffset(ks[0] as i32)
    } else {
        OppPred::RankOffset(1)
    }
}

proof fn lemma_opp_left_cnt(h: Seq<Round>, i: int, m: u16, x: nat)
    requires
        unplayed_mask(h, i, m),
        x <= 16,
    ensures
        cnt(m, x) == opp_left_below(h, i, x as int),
    decreases x,
{
    if x > 0 {
        lemma_opp_left_cnt(h, i, m, (x - 1) as nat);
        assert(holds_card(m, (x - 1) as u16) <==> (1 <= x - 1 <= 13 && !played_before(h, i, x - 1)));
    }
}

proof fn lemma_trophies_left_cnt(h: Seq<Round>, i: int, m: u16, x: nat)
    requires
        trophy_mask(h, i, m),
        x <= 16,
    ensures
        cnt(m, x) == trophies_left_below(h, i, x as int),
    decreases x,
{
    if x > 0 {
        lemma_trophies_left_cnt(h, i, m, (x - 1) as nat);
        assert(holds_card(m, (x - 1) as u16) <==> (1 <= x - 1 <= 13 && !trophy_before(h, i, x - 1)));
    }
}

proof fn lemma_trophy_step(h: Seq<Round>, i: int, m: u16, m2: u16)
    requires
        0 <= i < h.len(),
        trophy_mask(h, i, m),
        forall|d: u16| d < 16 ==> holds_card(m2, d) == (holds_card(m, d) && d != h[i].trophy as u16),
        h[i].trophy < 16,
    ensures
        trophy_mask(h, i + 1, m2),
{
    assert forall|d: u16| d < 16 implies (holds_card(m2, d) <==> (1 <= d <= 13 && !trophy_before(
        h,
        i + 1,
        d as int,
    ))) by {
        if trophy_before(h, i, d as int) {
            let j = choose|j: int| 0 <= j < i && h[j].trophy == d as int;
            assert(0 <= j < i + 1 && h[j].trophy == d as int);
        }
        if trophy_before(h, i + 1, d as int) {
            let j = choose|j: int| 0 <= j < i + 1 && h[j].trophy == d as int;
            if j < i {
                assert(trophy_before(h, i, d as int));
            }
        }
        if d == h[i].trophy as u16 {
            assert(0 <= i < i + 1 && h[i].trophy == d as int);
        }
    }
}

proof fn lemma_left_bounded(h: Seq<Round>, i: int, x: int)
    ensures
        opp_left_below(h, i, x) <= if x < 0 {
            0
        } else {
            x
        },
        trophies_left_below(h, i, x) <= if x < 0 {
            0
        } else {
            x
        },
    decreases x,
{
    if x > 0 {
        lemma_left_bounded(h, i, x - 1);
    }
}

proof fn lemma_rank_offsets_prefix(h: Seq<Round>, n: int, m: int)
    requires
        0 <= n <= m,
    ensures
        rank_offsets(h, n).len() <= rank_offsets(h, m).len(),
        forall|j: int| 0 <= j < rank_offsets(h, n).len() ==> rank_offsets(h, m)[j] == rank_offsets(h, n)[j],
    decreases m - n,
{
    if n < m {
        lemma_rank_offsets_prefix(h, n, m - 1);
    }
}

/// The full set of cards 1..=13.
fn all_cards() -> (m: u16)
    ensures
        forall|d: u16| d < 16 ==> (holds_card(m, d) <==> 1 <= d <= 13),
{
    let mut m: u16 = 0;
    let mut c: u16 = 1;
    proof {
        assert forall|d: u16| d < 16 implies !holds_card(m, d) by {
            lemma_has_zero(d);
        }
    }
    while c <= 13
        invariant
            1 <= c <= 14,
            forall|d: u16| d < 16 ==> (holds_card(m, d) <==> 1 <= d < c),
        decreases 14 - c,
    {
        m = add_card(m, c);
        c = c + 1;
    }
    m
}

impl OppPred {
    /// Reads the opponent model off the history.
    pub fn from_history(history: &Vec<Round>) -> (r: OppPred)
        requires
            forall|i: int|
                0 <= i < history@.len() ==> (#[trigger] history@[i]).them < 16 && history@[i].trophy < 16,
        ensures
            r == model_of(history@),
    {
        let ghost h = history@;
        if history.len() == 0 {
            return OppPred::RankOffset(1);
        }
        let mut opp_hand = all_cards();
        let mut trophies_left = all_cards();
        proof {
            assert(unplayed_mask(h, 0, opp_hand));
            assert(trophy_mask(h, 0, trophies_left));
        }
        let mut k_opt: Option<i32> = None;
        let mut k_consistent = true;
        let mut all_played_min = true;
        let mut all_played_max = true;
        let mut i: usize = 0;
        while i < history.len()
            invariant
                h == history@,
                i <= h.len(),
                forall|j: int| 0 <= j < h.len() ==> (#[trigger] h[j]).them < 16 && h[j].trophy < 16,
                unplayed_mask(h, i as int, opp_hand),
                trophy_mask(h, i as int, trophies_left),
                all_played_min == forall|j: int| 0 <= j < i ==> played_min(h, j),
                all_played_max == forall|j: int| 0 <= j < i ==> played_max(h, j),
                match k_opt {
                    None => rank_offsets(h, i as int).len() == 0,
                    Some(v) => rank_offsets(h, i as int).len() > 0 && v == rank_offsets(h, i as int)[0],
                },
                k_consistent == forall|j: int|
                    0 <= j < rank_offsets(h, i as int).len() ==> #[trigger] rank_offsets(h, i as int)[j]
                        == rank_offsets(h, i as int)[0],
            decreases h.len() - i,
        {
            let r = history[i];
            proof {
                assert(h[i as int] == r);
                lemma_opp_left_cnt(h, i as int, opp_hand, r.them as nat);
                lemma_opp_left_cnt(h, i as int, opp_hand, 16);
                lemma_trophies_left_cnt(h, i as int, trophies_left, r.trophy as nat);
                lemma_left_bounded(h, i as int, r.them as int);
                lemma_left_bounded(h, i as int, 16);
                lemma_left_bounded(h, i as int, r.trophy as int);
            }
            let opp_rank_now = count_below(opp_hand, r.them as u16) as i32;
            let opp_size = card_count(opp_hand) as i32;
            let trophy_rank_now = count_below(trophies_left, r.trophy as u16) as i32;
            let played_min_now = opp_rank_now == 0;
            let played_max_now = opp_rank_now == opp_size - 1;
            let ghost before_min = all_played_min;
            let ghost before_max = all_played_max;
            if !played_min_now {
                all_played_min = false;
            }
            if !played_max_now {
                all_played_max = false;
            }
            let is_throw = played_min_now && trophy_rank_now > 0;
            let ghost ks = rank_offsets(h, i as int);
            if !is_throw {
                let k = opp_rank_now - trophy_rank_now;
                match k_opt {
                    None => k_opt = Some(k),
                    Some(prev) => {
                        if prev != k {
                            k_consistent = false;
                        }
                    },
                }
            }
            proof {
                assert(played_min_now == played_min(h, i as int));
                assert(played_max_now == played_max(h, i as int));
                assert(is_throw == rank_throw(h, i as int));
                if before_min && played_min_now {
                    assert forall|j: int| 0 <= j < i + 1 implies played_min(h, j) by {
                        if j < i {
                        }
                    }
                }
                if !(before_min && played_min_now) {
                    if !played_min_now {
                        assert(!played_min(h, i as int));
                    } else {
                        let j = choose|j: int| 0 <= j < i && !played_min(h, j);
                        assert(0 <= j < i + 1 && !played_min(h, j));
                    }
                }
                if before_max && played_max_now {
                    assert forall|j: int| 0 <= j < i + 1 implies played_max(h, j) by {
                        if j < i {
                        }
                    }
                }
                if !(before_max && played_max_now) {
                    if !played_max_now {
                        assert(!played_max(h, i as int));
                    } else {
                        let j = choose|j: int| 0 <= j < i && !played_max(h, j);
                        assert(0 <= j < i + 1 && !played_max(h, j));
                    }
                }
                if is_throw {
                    assert(rank_offsets(h, i + 1) == ks);
                } else {
                    let ks2 = rank_offsets(h, i + 1);
                    assert(ks2 == ks.push(opp_rank(h, i as int) - trophy_rank_at(h, i as int)));
                    assert(ks2[ks.len() as int] == opp_rank_now - trophy_rank_now);
                    if ks.len() > 0 {
                        assert(ks2[0] == ks[0]);
                        assert forall|j: int| 0 <= j < ks.len() implies ks2[j] == ks[j] by {
                        }
                    }
                }
            }
            let ghost old_opp = opp_hand;
            let ghost old_tro = trophies_left;
            opp_hand = remove_card(opp_hand, r.them as u16);
            trophies_left = remove_card(trophies_left, r.trophy as u16);
            proof {
                lemma_unplayed_step(h, i as int, old_opp, opp_hand);
                lemma_trophy_step(h, i as int, old_tro, trophies_left);
            }
            i = i + 1;
        }
        proof {
            assert(h.len() > 0);
        }
        if all_played_min && history.len() >= 2 {
            return OppPred::AlwaysLow;
        }
        if all_played_max && history.len() >= 2 {
            return OppPred::AlwaysHigh;
        }
        if k_consistent {
            if let Some(k) = k_opt {
                return OppPred::RankOffset(k);
            }
        }
        OppPred::RankOffset(1)
    }
}

// ---------------------------------------------------------------- play-out

/// What one round pays me: the trophy when my card is higher, its negative
/// when lower, nothing on a tie.
pub open spec fn round_payoff(mine: u16, theirs: u16, trophy: u16) -> int {
    if mine > theirs {
        trophy as int
    } else if mine < theirs {
        -(trophy as int)
    } else {
        0
    }
}

/// My score over the rest of the game (at most `n` more rounds) when I open
/// with `my_first` (if `first`) and then bid at `offset` ranks above the
/// trophy, the opponent plays as `pred` says, and the pending trophies turn up
/// lowest first.
pub open spec fn playout(
    my_first: u16,
    first: bool,
    my_h: u16,
    their_h: u16,
    pending: u16,
    cur: u16,
    pred: OppPred,
    offset: int,
    n: nat,
) -> int
    decreases n,
{
    if n == 0 || my_h == 0 {
        0
    } else {
        let in_play = pending | (1u16 << cur);
        let mine = if first {
            my_first
        } else {
            rank_pick(my_h, in_play, cur, offset)
        };
        let theirs = predicted_card(pred, their_h, in_play, cur);
        round_payoff(mine, theirs, cur) + if pending == 0 {
            0
        } else {
            let next = card_of_rank(pending, 0);
            playout(
                my_first,
                false,
                my_h & !(1u16 << mine),
                their_h & !(1u16 << theirs),
                pending & !(1u16 << next),
                next,
                pred,
                offset,
                (n - 1) as nat,
            )
        }
    }
}

/// The play-out's value when opening with `my_first` on the given position.
pub open spec fn opening_value(
    my_first: u16,
    my_hand: u16,
    their_hand: u16,
    trophies_remaining: u16,
    current: u16,
    pred: OppPred,
    offset: int,
) -> int {
    playout(
        my_first,
        true,
        my_hand,
        their_hand,
        trophies_remaining,
        current,
        pred,
        offset,
        popcount(trophies_remaining) + 1,
    )
}

/// Plays the rest of the game forward: I open with `my_first`, then bid
/// `future_offset` ranks above each trophy; the opponent plays as predicted;
/// pending trophies turn up lowest first. Returns my total score over it.
pub fn simulate_outcome(
    my_first: u8,
    my_hand: u16,
    their_hand: u16,
    trophies_remaining: u16,
    current: u8,
    opp_pred: &OppPred,
    future_offset: i32,
) -> (r: i32)
    requires
        my_first < 16,
        holds_card(my_hand, my_first as u16),
        popcount(my_hand) == popcount(their_hand),
        current < 16,
    ensures
        r == opening_value(
            my_first as u16,
            my_hand,
            their_hand,
            trophies_remaining,
            current as u16,
            *opp_pred,
            future_offset as int,
        ),
{
    let ghost total = opening_value(
        my_first as u16,
        my_hand,
        their_hand,
        trophies_remaining,
        current as u16,
        *opp_pred,
        future_offset as int,
    );
    let mut my_h = my_hand;
    let mut their_h = their_hand;
    let mut t_pending = trophies_remaining;
    let mut cur: u16 = current as u16;
    let mut score: i32 = 0;
    let mut first = true;
    let ghost mut steps: int = 0;
    proof {
        lemma_cnt_bounded(trophies_remaining, 16);
    }
    while my_h != 0
        invariant
            score + playout(
                my_first as u16,
                first,
                my_h,
                their_h,
                t_pending,
                cur,
                *opp_pred,
                future_offset as int,
                popcount(t_pending) + 1,
            ) == total,
            total == opening_value(
                my_first as u16,
                my_hand,
                their_hand,
                trophies_remaining,
                current as u16,
                *opp_pred,
                future_offset as int,
            ),
            cur < 16,
            my_first < 16,
            popcount(my_h) == popcount(their_h),
            first ==> holds_card(my_h, my_first as u16),
            0 <= steps,
            steps + popcount(t_pending) <= 16,
            -15 * steps <= score <= 15 * steps,
        decreases popcount(t_pending),
    {
        proof {
            if popcount(my_h) == 0 {
                crate::cards::lemma_empty_mask_of_count(my_h);
            }
        }
        let ghost old_my = my_h;
        let ghost old_their = their_h;
        let ghost old_first = first;
        let in_play = t_pending | (1u16 << cur);
        let my_card: u8 = if first {
            my_first
        } else {
            rank_offset_pick_bm(my_h, in_play, cur as u8, future_offset)
        };
        let opp_card = opp_pred.predict(their_h, in_play, cur as u8);
        let payoff: i32 = if my_card > opp_card {
            cur as i32
        } else if my_card < opp_card {
            -(cur as i32)
        } else {
            0
        };
        score = score + payoff;
        proof {
            lemma_cnt_remove(my_h, my_card as u16, 16);
            lemma_cnt_remove(their_h, opp_card as u16, 16);
        }
        my_h = my_h & !(1u16 << my_card);
        their_h = their_h & !(1u16 << opp_card);
        first = false;
        if t_pending == 0 {
            proof {
                lemma_cnt_zero(16);
                assert(popcount(t_pending) + 1 == 1);
                assert(playout(
                    my_first as u16,
                    old_first,
                    old_my,
                    old_their,
                    t_pending,
                    cur,
                    *opp_pred,
                    future_offset as int,
                    1,
                ) == payoff);
            }
            return score;
        }
        let next = nth_card_nonempty(t_pending);
        proof {
            lemma_cnt_remove(t_pending, next, 16);
            steps = steps + 1;
        }
        cur = next;
        t_pending = t_pending & !(1u16 << next);
    }
    score
}

/// The lowest card of a non-empty mask.
fn nth_card_nonempty(m: u16) -> (r: u16)
    requires
        m != 0,
    ensures
        r < 16,
        holds_card(m, r),
        r == card_of_rank(m, 0),
{
    proof {
        crate::cards::lemma_count_of_nonempty(m);
    }
    let c = nth_card(m, 0);
    proof {
        lemma_rank_card_unique(m, 0, c);
    }
    c
}

/// `r` is a card of `my_hand` whose play-out scores highest, the lowest of
/// those that do.
pub open spec fn best_opening(
    r: u16,
    my_hand: u16,
    their_hand: u16,
    trophies_remaining: u16,
    current: u16,
    pred: OppPred,
    offset: int,
) -> bool {
    &&& r < 16
    &&& holds_card(my_hand, r)
    &&& forall|c: u16|
        c < 16 && holds_card(my_hand, c) ==> opening_value(c, my_hand, their_hand, trophies_remaining, current, pred, offset)
            <= opening_value(r, my_hand, their_hand, trophies_remaining, current, pred, offset)
    &&& forall|c: u16|
        c < r && holds_card(my_hand, c) ==> opening_value(c, my_hand, their_hand, trophies_remaining, current, pred, offset)
            < opening_value(r, my_hand, their_hand, trophies_remaining, current, pred, offset)
}

/// Tries every card of the hand as the opening of a play-out and keeps the
/// first, from the lowest card up, that scores best.
pub fn lookahead_pick(
    my_hand: u16,
    their_hand: u16,
    trophies_remaining: u16,
    current: u8,
    opp_pred: &OppPred,
    future_offset: i32,
) -> (r: u8)
    requires
        popcount(my_hand) > 0,
        popcount(my_hand) == popcount(their_hand),
        current < 16,
    ensures
        best_opening(
            r as u16,
            my_hand,
            their_hand,
            trophies_remaining,
            current as u16,
            *opp_pred,
            future_offset as int,
        ),
{
    let ghost value = |c: u16|
        opening_value(c, my_hand, their_hand, trophies_remaining, current as u16, *opp_pred, future_offset as int);
    let mut best_move: u8 = 0;
    let mut best_score: i32 = 0;
    let mut have = false;
    let mut c: u16 = 0;
    while c < 16
        invariant
            c <= 16,
            popcount(my_hand) == popcount(their_hand),
            current < 16,
            value == (|c: u16|
                opening_value(
                    c,
                    my_hand,
                    their_hand,
                    trophies_remaining,
                    current as u16,
                    *opp_pred,
                    future_offset as int,
                )),
            !have ==> forall|d: u16| d < c ==> !holds_card(my_hand, d),
            have ==> {
                &&& best_move < c
                &&& holds_card(my_hand, best_move as u16)
                &&& best_score == value(best_move as u16)
                &&& forall|d: u16| d < c && holds_card(my_hand, d) ==> value(d) <= best_score
                &&& forall|d: u16| d < best_move && holds_card(my_hand, d) ==> value(d) < best_score
            },
        decreases 16 - c,
    {
        if has_card(my_hand, c) {
            let score = simulate_outcome(
                c as u8,
                my_hand,
                their_hand,
                trophies_remaining,
                current,
                opp_pred,
                future_offset,
            );
            if !have || score > best_score {
                best_move = c as u8;
                best_score = score;
                have = true;
            }
        }
        c = c + 1;
    }
    proof {
        if !have {
            lemma_empty_mask(my_hand);
            lemma_cnt_zero(16);
        }
    }
    best_move
}

/// The lookahead bidder: takes a decided round with its lowest card; else
/// reads the opponent model off the history and plays the opening whose
/// play-out (itself then one rank above each trophy) scores best.
pub fn adaptive_v3(ctx: &Context) -> (r: u8)
    requires
        ctx.well_formed(),
    ensures
        ctx.your_cards@.contains(r),
        if round_decided(ctx) {
            r == bottom(ctx.your_cards@)
        } else {
            best_opening(
                r as u16,
                card_mask(ctx.your_cards@),
                card_mask(ctx.their_cards@),
                card_mask(ctx.trophy_cards@),
                ctx.current_trophy as u16,
                model_of(ctx.history@),
                1,
            )
        },
{
    proof {
        lemma_bottom(ctx.your_cards@);
    }
    if decided(ctx) {
        return lowest(&ctx.your_cards);
    }
    proof {
        assert(small_cards(ctx.your_cards@));
        assert(small_cards(ctx.their_cards@));
        assert(small_cards(ctx.trophy_cards@));
        assert forall|i: int| 0 <= i < ctx.history@.len() implies (#[trigger] ctx.history@[i]).them < 16
            && ctx.history@[i].trophy < 16 by {
            assert(crate::goof_game::round_ok(ctx.history@[i]));
        }
    }
    let my_hand_bm = bm_from_slice(ctx.your_cards.as_slice());
    let their_hand_bm = bm_from_slice(ctx.their_cards.as_slice());
    let trophies_bm = bm_from_slice(ctx.trophy_cards.as_slice());
    proof {
        lemma_len_popcount(ctx.your_cards@, my_hand_bm);
        lemma_len_popcount(ctx.their_cards@, their_hand_bm);
    }
    let future_offset: i32 = 1;
    let opp_pred = OppPred::from_history(&ctx.history);
    let r = lookahead_pick(my_hand_bm, their_hand_bm, trophies_bm, ctx.current_trophy, &opp_pred, future_offset);
    proof {
        assert(ctx.your_cards@.contains(r));
    }
    r
}

/// The lookahead bidder as an arena player.
pub struct AdaptiveV4;

impl Strategy for AdaptiveV4 {
    fn name(&self) -> (r: &str)
        ensures
            r@ == "adaptive-v4"@,
    {
        "adaptive-v4"
    }

    fn pick(&mut self, ctx: &Context) -> (r: u8)
        ensures
            if round_decided(ctx) {
                r == bottom(ctx.your_cards@)
            } else {
                best_opening(
                    r as u16,
                    card_mask(ctx.your_cards@),
                    card_mask(ctx.their_cards@),
                    card_mask(ctx.trophy_cards@),
                    ctx.current_trophy as u16,
                    model_of(ctx.history@),
                    1,
                )
            },
    {
        adaptive_v3(ctx)
    }
}

// ---------------------------------------------------------------- search helpers

/// The card of `m` at rank `k`, or 16 past its last card.
pub open spec fn rank_or_end(m: u16, k: int) -> u16 {
    if k < popcount(m) {
        card_of_rank(m, k)
    } else {
        16
    }
}

/// Score difference over the first `n` rank pairings: the k-th lowest cards
/// of the two hands meet on the k-th lowest trophy in play.
pub open spec fn paired_diff(my_hand: u16, their_hand: u16, in_play: u16, n: int) -> int
    decreases n,
{
    if n <= 0 {
        0
    } else {
        paired_diff(my_hand, their_hand, in_play, n - 1) + round_payoff(
            rank_or_end(my_hand, n - 1),
            rank_or_end(their_hand, n - 1),
            rank_or_end(in_play, n - 1),
        )
    }
}

/// Swapping the two hands negates the paired difference.
proof fn lemma_paired_diff_antisymmetric(a: u16, b: u16, t: u16, n: int)
    ensures
        paired_diff(a, b, t, n) == -paired_diff(b, a, t, n),
    decreases n,
{
    if n > 0 {
        lemma_paired_diff_antisymmetric(a, b, t, n - 1);
    }
}

/// The static value is zero-sum: with hands of equal size, swapping them
/// negates it.
pub proof fn lemma_heuristic_antisymmetric(my_hand: u16, their_hand: u16, trophies_remaining: u16, current: u8)
    requires
        current < 16,
        popcount(my_hand) == popcount(their_hand),
    ensures
        ({
            let t = trophies_remaining | (1u16 << current);
            let n = |h: u16| if popcount(h) < popcount(t) {
                popcount(h) as int
            } else {
                popcount(t) as int
            };
            paired_diff(my_hand, their_hand, t, n(my_hand)) == -paired_diff(their_hand, my_hand, t, n(their_hand))
        }),
{
    let t = trophies_remaining | (1u16 << current);
    let n = if popcount(my_hand) < popcount(t) {
        popcount(my_hand) as int
    } else {
        popcount(t) as int
    };
    lemma_paired_diff_antisymmetric(my_hand, their_hand, t, n);
}

/// Static value of a position when both sides bid rank-proportionally from
/// here on: the hands, sorted, meet the trophies in play, sorted, rank by
/// rank; each trophy counts for whoever holds the higher card at its rank.
pub fn heuristic(my_hand: u16, their_hand: u16, trophies_remaining: u16, current: u8) -> (r: i32)
    requires
        current < 16,
    ensures
        r == paired_diff(
            my_hand,
            their_hand,
            trophies_remaining | (1u16 << current),
            if popcount(my_hand) < popcount(trophies_remaining | (1u16 << current)) {
                popcount(my_hand) as int
            } else {
                popcount(trophies_remaining | (1u16 << current)) as int
            },
        ),
{
    let trophies = trophies_remaining | (1u16 << current);
    let my_count = card_count(my_hand);
    let t_count = card_count(trophies);
    let n: u32 = if my_count < t_count {
        my_count
    } else {
        t_count
    };
    let mut diff: i32 = 0;
    let mut k: u32 = 0;
    while k < n
        invariant
            k <= n <= 16,
            n == popcount(my_hand) || n == popcount(trophies),
            n <= popcount(my_hand),
            n <= popcount(trophies),
            diff == paired_diff(my_hand, their_hand, trophies, k as int),
            -16 * k <= diff <= 16 * k,
        decreases n - k,
    {
        let my_card = nth_set_bit(my_hand, k);
        let their_card = nth_set_bit(their_hand, k);
        let trophy = nth_set_bit(trophies, k);
        if my_card > their_card {
            diff = diff + trophy as i32;
        } else if my_card < their_card {
            diff = diff - trophy as i32;
        }
        k = k + 1;
    }
    diff
}

/// Sum of the card values of `m` below `x`.
pub open spec fn mask_sum(m: u16, x: nat) -> nat
    decreases x,
{
    if x == 0 {
        0
    } else {
        mask_sum(m, (x - 1) as nat) + if holds_card(m, (x - 1) as u16) {
            (x - 1) as nat
        } else {
            0nat
        }
    }
}

/// Sum of the card values in a mask.
pub fn trophy_sum(mask: u16) -> (r: u32)
    ensures
        r == mask_sum(mask, 16),
{
    let mut s: u32 = 0;
    let mut c: u16 = 0;
    while c < 16
        invariant
            c <= 16,
            s == mask_sum(mask, c as nat),
            s <= 16 * c,
        decreases 16 - c,
    {
        if has_card(mask, c) {
            s = s + c as u32;
        }
        c = c + 1;
    }
    s
}

/// The cards of a mask, ascending: strictly increasing, and holding exactly
/// the cards of the mask (so they give the mask back).
pub fn bits_to_vec(mask: u16) -> (r: Vec<u8>)
    ensures
        r@.len() == popcount(mask),
        forall|k: int| 0 <= k < r@.len() ==> r@[k] as u16 == card_of_rank(mask, k),
        forall|i: int, j: int| 0 <= i < j < r@.len() ==> r@[i] < r@[j],
        forall|k: int| 0 <= k < r@.len() ==> r@[k] < 16,
        mask_of(r@, mask),
{
    let mut out: Vec<u8> = Vec::new();
    let mut c: u16 = 0;
    while c < 16
        invariant
            c <= 16,
            out@.len() == cnt(mask, c as nat),
            forall|k: int| 0 <= k < out@.len() ==> out@[k] as u16 == card_of_rank(mask, k),
            forall|i: int, j: int| 0 <= i < j < out@.len() ==> out@[i] < out@[j],
            forall|k: int| 0 <= k < out@.len() ==> out@[k] < c,
            forall|x: u16| x < c ==> (holds_card(mask, x) <==> out@.contains(x as u8)),
        decreases 16 - c,
    {
        let ghost before = out@;
        if has_card(mask, c) {
            proof {
                lemma_rank_card_unique(mask, out@.len() as int, c);
            }
            out.push(c as u8);
            proof {
                assert(out@[out@.len() - 1] == c as u8);
                assert forall|x: u16| x < c + 1 implies (holds_card(mask, x) <==> out@.contains(x as u8)) by {
                    if x < c {
                        if before.contains(x as u8) {
                            let k = choose|k: int| 0 <= k < before.len() && before[k] == x as u8;
                            assert(out@[k] == x as u8);
                        }
                        if out@.contains(x as u8) {
                            let k = choose|k: int| 0 <= k < out@.len() && out@[k] == x as u8;
                            if k < before.len() {
                                assert(before[k] == x as u8);
                            }
                        }
                    } else {
                        assert(out@[out@.len() - 1] == x as u8);
                    }
                }
            }
        } else {
            proof {
                assert(!out@.contains(c as u8));
            }
        }
        c = c + 1;
    }
    out
}

/// A search position: both hands, the trophies to come, the current trophy
/// and how many more levels to search.
#[derive(Clone, Copy, PartialEq, Eq, Debug, Structural)]
pub struct StateKey {
    pub my_hand: u16,
    pub their_hand: u16,
    pub trophies_remaining: u16,
    pub current_trophy: u8,
    pub depth_remaining: u8,
}

/// The one-number form of a position: each field in its own bit range.
pub open spec fn packed(k: StateKey) -> int {
    k.my_hand + k.their_hand * 0x1_0000 + k.trophies_remaining * 0x1_0000_0000 + k.current_trophy
        * 0x1_0000_0000_0000 + k.depth_remaining * 0x100_0000_0000_0000
}

impl StateKey {
    /// Packs the position into one `u64`: the hands in bits 0..32, the
    /// trophies to come in 32..48, the current trophy in 48..56 and the depth
    /// in 56..64.
    pub fn pack(self) -> (r: u64)
        ensures
            r == packed(self),
            self.my_hand != 0 ==> r != 0,
    {
        let a = self.my_hand as u64;
        let b = self.their_hand as u64;
        let c = self.trophies_remaining as u64;
        let d = self.current_trophy as u64;
        let e = self.depth_remaining as u64;
        let r = a | (b << 16) | (c << 32) | (d << 48) | (e << 56);
        proof {
            assert(r == a + b * 0x1_0000 + c * 0x1_0000_0000 + d * 0x1_0000_0000_0000 + e * 0x100_0000_0000_0000)
                by (bit_vector)
                requires
                    a < 0x1_0000,
                    b < 0x1_0000,
                    c < 0x1_0000,
                    d < 0x100,
                    e < 0x100,
                    r == a | (b << 16) | (c << 32) | (d << 48) | (e << 56),
            ;
        }
        r
    }
}

/// Distinct positions pack to distinct numbers.
pub proof fn lemma_pack_injective(x: StateKey, y: StateKey)
    requires
        packed(x) == packed(y),
    ensures
        x == y,
{
    let (a1, b1, c1, d1, e1) = (
        x.my_hand as u64,
        x.their_hand as u64,
        x.trophies_remaining as u64,
        x.current_trophy as u64,
        x.depth_remaining as u64,
    );
    let (a2, b2, c2, d2, e2) = (
        y.my_hand as u64,
        y.their_hand as u64,
        y.trophies_remaining as u64,
        y.current_trophy as u64,
        y.depth_remaining as u64,
    );
    assert(a1 == a2 && b1 == b2 && c1 == c2 && d1 == d2 && e1 == e2) by (bit_vector)
        requires
            a1 < 0x1_0000,
            b1 < 0x1_0000,
            c1 < 0x1_0000,
            d1 < 0x100,
            e1 < 0x100,
            a2 < 0x1_0000,
            b2 < 0x1_0000,
            c2 < 0x1_0000,
            d2 < 0x100,
            e2 < 0x100,
            a1 + b1 * 0x1_0000 + c1 * 0x1_0000_0000 + d1 * 0x1_0000_0000_0000 + e1 * 0x100_0000_0000_0000 == a2 + b2
                * 0x1_0000 + c2 * 0x1_0000_0000 + d2 * 0x1_0000_0000_0000 + e2 * 0x100_0000_0000_0000,
    ;
}

} // verus!
