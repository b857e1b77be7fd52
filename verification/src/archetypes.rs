//! Opponent archetypes and pattern detectors used by our Liar's Dice bot
//! (mybot-v11 and its deployed build): what each archetype opens with, when
//! it challenges, how it answers, the value of the game against an
//! archetype whose count is known, and the history patterns that reveal it.
use crate::bidding::{bids_by_from, raises_by_one_from, scan_raises};
use crate::chance::{below_pct, p_bid_succeeds, spec_p_bid_succeeds};
use crate::dice::{count_face, lemma_count_face_bounded, spec_count_face, Bid, Context, HistoryEntry, Move};
use crate::liar_players::{over_expectation, rounded_expectation};
use vstd::prelude::*;

verus! {

#[derive(Copy, Clone, PartialEq, Eq, Debug, Structural)]
pub enum HighOpenArch {
    /// Opens at Q=count. Challenges via exact P<0.10.
    AggressiveOpener,
    /// Opens at Q=count+1. Challenges Honest-style.
    BoldOpener,
    /// Opens at Q=count+2. Challenges Honest-style.
    Honest,
    /// Opens at Q=1. Challenges via P<0.25.
    MinIncrement,
    /// Opens at Q=2 fixed. Challenges via P<0.30.
    Copycat,
    /// Opens at Q=1. Challenges via P<0.40.
    Calculator,
    /// Opens at Q=1 (smallest P≥0.55). Challenges via P<0.35.
    MinimalSafe,
}

/// An archetype's predicted answer to our bid.
#[derive(Copy, Clone, PartialEq, Eq, Debug, Structural)]
pub enum Response {
    Challenge,
    Bid(Bid),
}

impl HighOpenArch {
    pub open spec fn spec_opens_q(self, c: u32) -> int {
        match self {
            HighOpenArch::AggressiveOpener => c as int,
            HighOpenArch::BoldOpener => c + 1,
            HighOpenArch::Honest => c + 2,
            HighOpenArch::MinIncrement | HighOpenArch::Calculator | HighOpenArch::MinimalSafe => 1,
            HighOpenArch::Copycat => 2,
        }
    }

    /// The quantity the archetype opens with when it holds `c` of its best face.
    pub fn opens_q(self, c: u32) -> (r: u32)
        requires
            c + 2 <= u32::MAX,
        ensures
            r == self.spec_opens_q(c),
    {
        match self {
            HighOpenArch::AggressiveOpener => c,
            HighOpenArch::BoldOpener => c + 1,
            HighOpenArch::Honest => c + 2,
            HighOpenArch::MinIncrement | HighOpenArch::Calculator | HighOpenArch::MinimalSafe => 1,
            HighOpenArch::Copycat => 2,
        }
    }

    /// The archetype challenges the bid (q, face) when it holds `c_opp` supporting dice.
    pub open spec fn spec_challenges(self, q: u32, face: u32, c_opp: u32, opp_dice: u32) -> bool {
        let p = spec_p_bid_succeeds(q, face, c_opp as nat, opp_dice);
        match self {
            HighOpenArch::AggressiveOpener => below_pct(p, 10),
            HighOpenArch::MinIncrement => below_pct(p, 25),
            HighOpenArch::Copycat => below_pct(p, 30),
            HighOpenArch::MinimalSafe => below_pct(p, 35),
            HighOpenArch::Calculator => below_pct(p, 40),
            HighOpenArch::BoldOpener | HighOpenArch::Honest => over_expectation(
                q,
                c_opp as nat,
                face,
                opp_dice,
                1,
            ),
        }
    }

    /// Whether the archetype challenges the bid of `q` dice of `face` holding `c_opp` of them.
    pub fn challenges(self, q: u32, face: u32, c_opp: u32, opp_dice: u32) -> (r: bool)
        requires
            opp_dice <= 24,
            c_opp + 100 <= u32::MAX,
        ensures
            r == self.spec_challenges(q, face, c_opp, opp_dice),
    {
        match self {
            HighOpenArch::AggressiveOpener => p_bid_succeeds(q, face, c_opp, opp_dice).below_percent(10),
            HighOpenArch::MinIncrement => p_bid_succeeds(q, face, c_opp, opp_dice).below_percent(25),
            HighOpenArch::Copycat => p_bid_succeeds(q, face, c_opp, opp_dice).below_percent(30),
            HighOpenArch::MinimalSafe => p_bid_succeeds(q, face, c_opp, opp_dice).below_percent(35),
            HighOpenArch::Calculator => p_bid_succeeds(q, face, c_opp, opp_dice).below_percent(40),
            HighOpenArch::BoldOpener | HighOpenArch::Honest => {
                let w: u64 = if face == 1 {
                    1
                } else {
                    2
                };
                6 * (q as u64) > 6 * (c_opp as u64) + (opp_dice as u64) * w + 3
            },
        }
    }

    pub open spec fn spec_respond(self, our_bid: Bid, c_opp_on_face: u32, opp_dice: u32) -> Response {
        if self.spec_challenges(our_bid.quantity, our_bid.face, c_opp_on_face, opp_dice) {
            Response::Challenge
        } else {
            let next = match self {
                HighOpenArch::Calculator | HighOpenArch::MinimalSafe => if our_bid.face < 6 {
                    Bid { quantity: our_bid.quantity, face: (our_bid.face + 1) as u32 }
                } else {
                    Bid { quantity: (our_bid.quantity + 1) as u32, face: 2 }
                },
                _ => Bid { quantity: (our_bid.quantity + 1) as u32, face: our_bid.face },
            };
            if next.quantity > 10 {
                Response::Challenge
            } else {
                Response::Bid(next)
            }
        }
    }

    /// Predicted answer: challenge by the archetype's rule, else a +1 raise on
    /// the same face (a face climb for Calculator and MinimalSafe).
    pub fn respond(self, our_bid: Bid, c_opp_on_face: u32, opp_dice: u32) -> (r: Response)
        requires
            opp_dice <= 24,
            c_opp_on_face + 100 <= u32::MAX,
            our_bid.quantity <= 10,
        ensures
            r == self.spec_respond(our_bid, c_opp_on_face, opp_dice),
    {
        if self.challenges(our_bid.quantity, our_bid.face, c_opp_on_face, opp_dice) {
            return Response::Challenge;
        }
        let next = match self {
            HighOpenArch::Calculator | HighOpenArch::MinimalSafe => {
                if our_bid.face < 6 {
                    Bid { quantity: our_bid.quantity, face: our_bid.face + 1 }
                } else {
                    Bid { quantity: our_bid.quantity + 1, face: 2 }
                }
            },
            _ => Bid { quantity: our_bid.quantity + 1, face: our_bid.face },
        };
        if next.quantity > 10 {
            Response::Challenge
        } else {
            Response::Bid(next)
        }
    }
}

/// Expected opp count on a face we have no specific info about:
/// `round(opp_dice * p_match(face))`.
pub fn expected_c_opp_on_face(face: u32, opp_dice: u32) -> (r: u32)
    requires
        opp_dice <= 24,
    ensures
        r == rounded_expectation(opp_dice, face),
{
    let w: u32 = if face == 1 {
        1
    } else {
        2
    };
    (opp_dice * w + 3) / 6
}

/// Value (1 = win) of the position where the bid (q, face) stands and it is
/// our turn, when the archetype and its count are known: the better of
/// challenging now and raising by one (after which the archetype challenges
/// or raises by one again).
pub open spec fn spec_arch_value(arch: HighOpenArch, c_me: u32, c_opp: u32, q: u32, face: u32, opp_dice: u32) -> u8
    decreases 10 - q,
{
    let challenge_win: u8 = if c_me + c_opp < q {
        1
    } else {
        0
    };
    if q >= 10 {
        challenge_win
    } else {
        let next_q = (q + 1) as u32;
        let ride_win: u8 = if arch.spec_challenges(next_q, face, c_opp, opp_dice) || next_q == 10 {
            if c_me + c_opp >= next_q {
                1
            } else {
                0
            }
        } else if next_q + 1 > 10 {
            if c_me + c_opp >= next_q {
                1
            } else {
                0
            }
        } else {
            spec_arch_value(arch, c_me, c_opp, (next_q + 1) as u32, face, opp_dice)
        };
        if challenge_win >= ride_win {
            challenge_win
        } else {
            ride_win
        }
    }
}

/// Recursive value (1 = win, 0 = lose) at state (q, face) with known
/// (arch, c_opp). At each step: max(challenge, ride).
pub fn arch_value(arch: HighOpenArch, c_me: u32, c_opp: u32, q: u32, face: u32, opp_dice: u32) -> (r: u8)
    requires
        opp_dice <= 24,
        c_me + c_opp + 100 <= u32::MAX,
    ensures
        r == spec_arch_value(arch, c_me, c_opp, q, face, opp_dice),
        r <= 1,
    decreases 10 - q,
{
    let challenge_win = if c_me + c_opp < q {
        1u8
    } else {
        0u8
    };
    if q >= 10 {
        return challenge_win;
    }
    let next_q = q + 1;
    let ride_win = if arch.challenges(next_q, face, c_opp, opp_dice) || next_q == 10 {
        if c_me + c_opp >= next_q {
            1u8
        } else {
            0u8
        }
    } else if next_q + 1 > 10 {
        if c_me + c_opp >= next_q {
            1u8
        } else {
            0u8
        }
    } else {
        arch_value(arch, c_me, c_opp, next_q + 1, face, opp_dice)
    };
    if challenge_win >= ride_win {
        challenge_win
    } else {
        ride_win
    }
}

pub open spec fn spec_bid_outcome_for_arch(arch: HighOpenArch, bid: Bid, c_me: u32, c_opp: u32, opp_dice: u32) -> u8 {
    if arch.spec_challenges(bid.quantity, bid.face, c_opp, opp_dice) || bid.quantity >= 10 {
        if c_me + c_opp >= bid.quantity {
            1
        } else {
            0
        }
    } else {
        spec_arch_value(arch, c_me, c_opp, (bid.quantity + 1) as u32, bid.face, opp_dice)
    }
}

/// Win (1) or loss (0) of making `bid` against the archetype with known count.
pub fn bid_outcome_for_arch(arch: HighOpenArch, bid: Bid, c_me: u32, c_opp: u32, opp_dice: u32) -> (r: u8)
    requires
        opp_dice <= 24,
        c_me + c_opp + 100 <= u32::MAX,
    ensures
        r == spec_bid_outcome_for_arch(arch, bid, c_me, c_opp, opp_dice),
        r <= 1,
{
    if arch.challenges(bid.quantity, bid.face, c_opp, opp_dice) || bid.quantity >= 10 {
        return if c_me + c_opp >= bid.quantity {
            1
        } else {
            0
        };
    }
    let opp_raise_to = bid.quantity + 1;
    arch_value(arch, c_me, c_opp, opp_raise_to, bid.face, opp_dice)
}

/// Value of the position `prev` (our turn) when the archetype answers by its
/// own policy; an answer on another face is valued with the expected count there.
pub open spec fn spec_arch_value_dyn(
    arch: HighOpenArch,
    dice: Seq<u32>,
    c_opp_curr: u32,
    prev: Bid,
    opp_dice: u32,
    depth: u32,
) -> u8
    decreases 8 - depth,
{
    let c_me_curr = spec_count_face(dice, prev.face);
    let challenge_win: u8 = if c_me_curr + c_opp_curr < prev.quantity {
        1
    } else {
        0
    };
    if prev.quantity >= 10 || depth >= 8 {
        challenge_win
    } else {
        let our_bid = Bid { quantity: (prev.quantity + 1) as u32, face: prev.face };
        let ride_win: u8 = match arch.spec_respond(our_bid, c_opp_curr, opp_dice) {
            Response::Challenge => if c_me_curr + c_opp_curr >= our_bid.quantity {
                1
            } else {
                0
            },
            Response::Bid(opp_next) => if opp_next.quantity > 10 {
                if c_me_curr + c_opp_curr >= our_bid.quantity {
                    1
                } else {
                    0
                }
            } else {
                let c_opp_new = if opp_next.face == prev.face {
                    c_opp_curr
                } else {
                    rounded_expectation(opp_dice, opp_next.face) as u32
                };
                spec_arch_value_dyn(arch, dice, c_opp_new, opp_next, opp_dice, (depth + 1) as u32)
            },
        };
        if challenge_win >= ride_win {
            challenge_win
        } else {
            ride_win
        }
    }
}

/// Per-archetype-policy version of `arch_value`.
pub fn arch_value_dyn(
    arch: HighOpenArch,
    c_me_dice: &[u32],
    c_opp_curr: u32,
    prev: Bid,
    opp_dice: u32,
    depth: u32,
) -> (r: u8)
    requires
        opp_dice <= 24,
        c_me_dice@.len() <= 1000,
        c_opp_curr <= 1000,
    ensures
        r == spec_arch_value_dyn(arch, c_me_dice@, c_opp_curr, prev, opp_dice, depth),
        r <= 1,
    decreases 8 - depth,
{
    proof {
        lemma_count_face_bounded(c_me_dice@, prev.face);
    }
    let c_me_curr = count_face(c_me_dice, prev.face);
    let challenge_win = if c_me_curr + c_opp_curr < prev.quantity {
        1u8
    } else {
        0u8
    };
    if prev.quantity >= 10 || depth >= 8 {
        return challenge_win;
    }
    // v11 picks +1 ride (default). Opp responds.
    let our_bid = Bid { quantity: prev.quantity + 1, face: prev.face };
    let opp_resp = arch.respond(our_bid, c_opp_curr, opp_dice);
    let ride_win = match opp_resp {
        Response::Challenge => {
            if c_me_curr + c_opp_curr >= our_bid.quantity {
                1u8
            } else {
                0u8
            }
        },
        Response::Bid(opp_next) => {
            if opp_next.quantity > 10 {
                if c_me_curr + c_opp_curr >= our_bid.quantity {
                    1u8
                } else {
                    0u8
                }
            } else {
                let c_opp_new = if opp_next.face == prev.face {
                    c_opp_curr
                } else {
                    expected_c_opp_on_face(opp_next.face, opp_dice)
                };
                arch_value_dyn(arch, c_me_dice, c_opp_new, opp_next, opp_dice, depth + 1)
            }
        },
    };
    if challenge_win >= ride_win {
        challenge_win
    } else {
        ride_win
    }
}

pub open spec fn spec_bid_outcome_for_arch_dyn(
    arch: HighOpenArch,
    bid: Bid,
    dice: Seq<u32>,
    c_opp: u32,
    opp_dice: u32,
) -> u8 {
    let c_me = spec_count_face(dice, bid.face);
    let holds: u8 = if c_me + c_opp >= bid.quantity {
        1
    } else {
        0
    };
    if bid.quantity >= 10 {
        holds
    } else {
        match arch.spec_respond(bid, c_opp, opp_dice) {
            Response::Challenge => holds,
            Response::Bid(opp_next) => if opp_next.quantity > 10 {
                holds
            } else {
                let c_opp_new = if opp_next.face == bid.face {
                    c_opp
                } else {
                    rounded_expectation(opp_dice, opp_next.face) as u32
                };
                spec_arch_value_dyn(arch, dice, c_opp_new, opp_next, opp_dice, 0)
            },
        }
    }
}

/// Per-archetype-policy variant of `bid_outcome_for_arch`.
pub fn bid_outcome_for_arch_dyn(arch: HighOpenArch, bid: Bid, c_me_dice: &[u32], c_opp_on_bid_face: u32, opp_dice: u32) -> (r: u8)
    requires
        opp_dice <= 24,
        c_me_dice@.len() <= 1000,
        c_opp_on_bid_face <= 1000,
    ensures
        r == spec_bid_outcome_for_arch_dyn(arch, bid, c_me_dice@, c_opp_on_bid_face, opp_dice),
        r <= 1,
{
    proof {
        lemma_count_face_bounded(c_me_dice@, bid.face);
    }
    let c_me = count_face(c_me_dice, bid.face);
    let holds: u8 = if c_me + c_opp_on_bid_face >= bid.quantity {
        1
    } else {
        0
    };
    if bid.quantity >= 10 {
        return holds;
    }
    match arch.respond(bid, c_opp_on_bid_face, opp_dice) {
        Response::Challenge => holds,
        Response::Bid(opp_next) => {
            if opp_next.quantity > 10 {
                holds
            } else {
                let c_opp_new = if opp_next.face == bid.face {
                    c_opp_on_bid_face
                } else {
                    expected_c_opp_on_face(opp_next.face, opp_dice)
                };
                arch_value_dyn(arch, c_me_dice, c_opp_new, opp_next, opp_dice, 0)
            }
        },
    }
}

// ---------------------------------------------------------------- detectors

/// The opening bid, when the round was opened by `who` with a bid.
pub open spec fn opened_by(h: Seq<HistoryEntry>, who: u32) -> Option<Bid> {
    if h.len() == 0 || h[0].player_id != who {
        None
    } else {
        match h[0].mv {
            Move::Bid(b) => Some(b),
            Move::Challenge => None,
        }
    }
}

/// Opp opened with `Q >= min_q` (and `Q == exact` when given) and every opp
/// bid since is +1 on the previous bid's face; the opening with the number
/// of opp raises.
pub open spec fn opp_open_chain(h: Seq<HistoryEntry>, me: u32) -> Option<(Bid, nat)> {
    let opp = (1 - me) as u32;
    match opened_by(h, opp) {
        None => None,
        Some(b) => if raises_by_one_from(h, 1, b.quantity, b.face, opp) {
            Some((b, bids_by_from(h, 1, opp)))
        } else {
            None
        },
    }
}

fn opp_open_chain_exec(ctx: &Context) -> (r: Option<(Bid, u32)>)
    requires
        ctx.well_formed(),
    ensures
        r is None <==> opp_open_chain(ctx.history@, ctx.my_id) is None,
        r matches Some((b, n)) ==> opp_open_chain(ctx.history@, ctx.my_id) == Some((b, n as nat)),
{
    if ctx.history.len() == 0 {
        return None;
    }
    let first = ctx.history[0];
    let opp_id = 1 - ctx.my_id;
    if first.player_id != opp_id {
        return None;
    }
    match first.mv {
        Move::Bid(b) => {
            let (ok, raises) = scan_raises(ctx.history, 1, b.quantity, b.face, opp_id);
            if ok {
                Some((b, raises))
            } else {
                None
            }
        },
        Move::Challenge => None,
    }
}

pub open spec fn spec_detect_high_opening(h: Seq<HistoryEntry>, me: u32) -> Option<(u32, u32)> {
    match opp_open_chain(h, me) {
        None => None,
        Some((b, raises)) => if b.quantity < 3 || (raises < 1 && b.quantity < 4) {
            None
        } else {
            Some((b.quantity, b.face))
        },
    }
}

/// Opp opened with Q >= 3 and every opp bid since is +1 on the previous
/// bid's face; at Q == 3 at least one raise is required to tell it from an
/// aggressive opener's count-only opening. Returns (open_q, open_face).
pub fn detect_high_opening(ctx: &Context) -> (r: Option<(u32, u32)>)
    requires
        ctx.well_formed(),
    ensures
        r == spec_detect_high_opening(ctx.history@, ctx.my_id),
{
    match opp_open_chain_exec(ctx) {
        None => None,
        Some((b, raises)) => {
            if b.quantity < 3 || (raises < 1 && b.quantity < 4) {
                None
            } else {
                Some((b.quantity, b.face))
            }
        },
    }
}

pub open spec fn spec_detect_copycat(h: Seq<HistoryEntry>, me: u32) -> Option<u32> {
    match opp_open_chain(h, me) {
        None => None,
        Some((b, raises)) => if b.quantity != 2 || raises < 1 {
            None
        } else {
            Some(b.face)
        },
    }
}

/// Opp opened with Q == 2, raised at least once, and every opp bid is +1 on
/// the previous bid's face. Returns the opening face.
pub fn detect_copycat(ctx: &Context) -> (r: Option<u32>)
    requires
        ctx.well_formed(),
    ensures
        r == spec_detect_copycat(ctx.history@, ctx.my_id),
{
    match opp_open_chain_exec(ctx) {
        None => None,
        Some((b, raises)) => {
            if b.quantity != 2 || raises < 1 {
                None
            } else {
                Some(b.face)
            }
        },
    }
}

pub open spec fn spec_detect_q2_opening(h: Seq<HistoryEntry>, me: u32) -> Option<u32> {
    match opp_open_chain(h, me) {
        None => None,
        Some((b, _)) => if b.quantity != 2 {
            None
        } else {
            Some(b.face)
        },
    }
}

/// Opp's first bid was at Q=2 with all its bids +1 on the previous face
/// (fires on turn 1 of opp-opens games).
pub fn detect_q2_opening(ctx: &Context) -> (r: Option<u32>)
    requires
        ctx.well_formed(),
    ensures
        r == spec_detect_q2_opening(ctx.history@, ctx.my_id),
{
    match opp_open_chain_exec(ctx) {
        None => None,
        Some((b, _)) => {
            if b.quantity != 2 {
                None
            } else {
                Some(b.face)
            }
        },
    }
}

pub open spec fn spec_detect_we_open_raises(h: Seq<HistoryEntry>, me: u32) -> Option<u32> {
    let opp = (1 - me) as u32;
    match opened_by(h, me) {
        None => None,
        Some(b) => if raises_by_one_from(h, 1, b.quantity, b.face, opp) && bids_by_from(h, 1, opp) >= 1 {
            Some(b.face)
        } else {
            None
        },
    }
}

/// We opened at (Q0, F0) and every opp bid since is +1 on the previous
/// bid's face, with at least one such raise. Returns F0.
pub fn detect_we_open_raises(ctx: &Context) -> (r: Option<u32>)
    requires
        ctx.well_formed(),
    ensures
        r == spec_detect_we_open_raises(ctx.history@, ctx.my_id),
{
    if ctx.history.len() == 0 {
        return None;
    }
    let first = ctx.history[0];
    if first.player_id != ctx.my_id {
        return None;
    }
    match first.mv {
        Move::Bid(b) => {
            let (ok, raises) = scan_raises(ctx.history, 1, b.quantity, b.face, 1 - ctx.my_id);
            if ok && raises >= 1 {
                Some(b.face)
            } else {
                None
            }
        },
        Move::Challenge => None,
    }
}

/// From entry `i` on, every bid (by anyone) is on `face` and raises the
/// previous quantity `q` by one, with no challenge.
pub open spec fn all_climb_from(h: Seq<HistoryEntry>, i: int, q: u32, face: u32) -> bool
    decreases h.len() - i,
{
    if i < 0 || i >= h.len() {
        true
    } else {
        match h[i].mv {
            Move::Challenge => false,
            Move::Bid(b) => b.face == face && b.quantity == q + 1 && all_climb_from(h, i + 1, b.quantity, face),
        }
    }
}

pub open spec fn spec_detect_we_opened_copycat_like(h: Seq<HistoryEntry>, me: u32) -> Option<u32> {
    match opened_by(h, me) {
        None => None,
        Some(b) => if all_climb_from(h, 1, b.quantity, b.face) && others_bids_from(h, 1, me) >= 1 {
            Some(b.face)
        } else {
            None
        },
    }
}

/// We opened, and every bid since (by either player) is +1 on the same face,
/// with at least one opp bid. Returns the face.
pub fn detect_we_opened_copycat_like(ctx: &Context) -> (r: Option<u32>)
    requires
        ctx.well_formed(),
    ensures
        r == spec_detect_we_opened_copycat_like(ctx.history@, ctx.my_id),
{
    if ctx.history.len() == 0 {
        return None;
    }
    let first = ctx.history[0];
    if first.player_id != ctx.my_id {
        return None;
    }
    let (mut prev_q, face) = match first.mv {
        Move::Bid(b) => (b.quantity, b.face),
        Move::Challenge => {
            return None;
        },
    };
    let ghost q0 = prev_q;
    let opp_id = 1 - ctx.my_id;
    let mut opp_bids: u32 = 0;
    let mut i: usize = 1;
    while i < ctx.history.len()
        invariant
            1 <= i <= ctx.history@.len(),
            ctx.history@.len() <= u32::MAX,
            opp_bids <= i,
            opp_id == 1 - ctx.my_id,
            all_climb_from(ctx.history@, 1, q0, face) == all_climb_from(ctx.history@, i as int, prev_q, face),
            opened_by(ctx.history@, ctx.my_id) == Some(Bid { quantity: q0, face }),
            opp_bids + others_bids_from(ctx.history@, i as int, ctx.my_id) == others_bids_from(
                ctx.history@,
                1,
                ctx.my_id,
            ),
        decreases ctx.history@.len() - i,
    {
        let h = ctx.history[i];
        match h.mv {
            Move::Bid(b) => {
                if b.face != face || b.quantity as u64 != prev_q as u64 + 1 {
                    return None;
                }
                if h.player_id != ctx.my_id {
                    opp_bids = opp_bids + 1;
                }
                prev_q = b.quantity;
            },
            Move::Challenge => {
                return None;
            },
        }
        i = i + 1;
    }
    if opp_bids >= 1 {
        Some(face)
    } else {
        None
    }
}

/// From entry `i` on, every bid by someone other than `me` is +1 on the face
/// of the bid before it (`prev`, when there is one); challenges are passed over.
pub open spec fn others_climb_from(h: Seq<HistoryEntry>, i: int, prev: Option<Bid>, me: u32) -> bool
    decreases h.len() - i,
{
    if i < 0 || i >= h.len() {
        true
    } else {
        match h[i].mv {
            Move::Challenge => others_climb_from(h, i + 1, prev, me),
            Move::Bid(b) => if h[i].player_id != me && (prev matches Some(p) && (b.face != p.face
                || b.quantity != p.quantity + 1)) {
                false
            } else {
                others_climb_from(h, i + 1, Some(b), me)
            },
        }
    }
}

/// Bids from entry `i` on made by someone other than `me`.
pub open spec fn others_bids_from(h: Seq<HistoryEntry>, i: int, me: u32) -> nat
    decreases h.len() - i,
{
    if i < 0 || i >= h.len() {
        0
    } else {
        others_bids_from(h, i + 1, me) + if h[i].player_id != me && h[i].mv is Bid {
            1nat
        } else {
            0nat
        }
    }
}

/// Opp's bids form a +1 chain on the same face as the bid before each, and
/// opp has bid at least once.
pub fn opp_is_copycat_like(ctx: &Context) -> (r: bool)
    requires
        ctx.well_formed(),
    ensures
        r == (others_climb_from(ctx.history@, 0, None, ctx.my_id) && others_bids_from(ctx.history@, 0, ctx.my_id)
            >= 1),
{
    let mut prev_bid: Option<Bid> = None;
    let mut opp_bids: u32 = 0;
    let mut i: usize = 0;
    while i < ctx.history.len()
        invariant
            i <= ctx.history@.len(),
            ctx.history@.len() <= u32::MAX,
            opp_bids <= i,
            others_climb_from(ctx.history@, 0, None, ctx.my_id) == others_climb_from(
                ctx.history@,
                i as int,
                prev_bid,
                ctx.my_id,
            ),
            opp_bids + others_bids_from(ctx.history@, i as int, ctx.my_id) == others_bids_from(
                ctx.history@,
                0,
                ctx.my_id,
            ),
        decreases ctx.history@.len() - i,
    {
        let h = ctx.history[i];
        if let Move::Bid(b) = h.mv {
            if h.player_id != ctx.my_id {
                opp_bids = opp_bids + 1;
                if let Some(p) = prev_bid {
                    if b.face != p.face || b.quantity as u64 != p.quantity as u64 + 1 {
                        return false;
                    }
                }
            }
            prev_bid = Some(b);
        }
        i = i + 1;
    }
    opp_bids >= 1
}

/// The face other than `open_f` where we hold the most dice, if at least four
/// (first such face on ties), with that count.
pub open spec fn strong_face_from(dice: Seq<u32>, open_f: u32, upto: u32) -> Option<(nat, u32)>
    decreases upto,
{
    if upto == 0 {
        None
    } else {
        let best = strong_face_from(dice, open_f, (upto - 1) as u32);
        let c = spec_count_face(dice, upto);
        if upto == open_f || c < 4 {
            best
        } else {
            match best {
                None => Some((c, upto)),
                Some((bc, bf)) => if c > bc {
                    Some((c, upto))
                } else {
                    best
                },
            }
        }
    }
}

pub open spec fn spec_try_face_switch_strong(dice: Seq<u32>, prev: Bid, open_f: u32) -> Option<Bid> {
    match strong_face_from(dice, open_f, 6) {
        None => None,
        Some((c_f, f)) => {
            let t1: int = if c_f + 1 >= prev.quantity + 1 {
                c_f + 1int
            } else {
                prev.quantity + 1
            };
            let target_q: int = if t1 > 10 {
                10
            } else {
                t1
            };
            if target_q > prev.quantity || (target_q == prev.quantity && f > prev.face) {
                Some(Bid { quantity: target_q as u32, face: f })
            } else {
                None
            }
        },
    }
}

/// Face-switch early-out: with at least four dice of a face other than the
/// opponent's opening face, bid (c_me+1, F') when that is legal.
pub fn try_face_switch_strong(dice: &[u32], prev: Bid, open_f: u32) -> (r: Option<Bid>)
    requires
        dice@.len() <= 1000,
        prev.quantity < u32::MAX,
    ensures
        r == spec_try_face_switch_strong(dice@, prev, open_f),
{
    let mut best_f: Option<(u32, u32)> = None;
    let mut f: u32 = 1;
    while f <= 6
        invariant
            1 <= f <= 7,
            dice@.len() <= 1000,
            best_f is None <==> strong_face_from(dice@, open_f, (f - 1) as u32) is None,
            best_f matches Some((bc, bf)) ==> strong_face_from(dice@, open_f, (f - 1) as u32) == Some(
                (bc as nat, bf),
            ) && bc <= 1000,
        decreases 7 - f,
    {
        if f != open_f {
            proof {
                lemma_count_face_bounded(dice@, f);
            }
            let c_f = count_face(dice, f);
            if c_f >= 4 {
                match best_f {
                    None => best_f = Some((c_f, f)),
                    Some((bc, _)) => {
                        if c_f > bc {
                            best_f = Some((c_f, f));
                        }
                    },
                }
            }
        }
        f = f + 1;
    }
    let (c_f, f) = match best_f {
        None => {
            return None;
        },
        Some(x) => x,
    };
    let t1 = if c_f + 1 >= prev.quantity + 1 {
        c_f + 1
    } else {
        prev.quantity + 1
    };
    let target_q = if t1 > 10 {
        10
    } else {
        t1
    };
    let legal = target_q > prev.quantity || (target_q == prev.quantity && f > prev.face);
    if legal {
        Some(Bid { quantity: target_q, face: f })
    } else {
        None
    }
}

} // verus!
