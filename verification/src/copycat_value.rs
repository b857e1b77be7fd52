//! The value of riding against a copycat, by backward induction over a belief
//! on its count of the face. The copycat challenges once a bid stands three
//! above its count and otherwise raises by one on the same face; we either
//! challenge or raise by one. A belief is a list of six weights (counts
//! 0..=5); values are in the same units: the weight of the counts against
//! which we win, so dividing by the total weight gives the chance of winning.
use crate::dice::{Bid, Context, HistoryEntry, Move};
use vstd::prelude::*;

verus! {

/// Weight of the counts `c < n` against which challenging a bid of `q` wins.
pub open spec fn challenge_weight(c_me: int, w: Seq<u64>, q: int, n: int) -> nat
    decreases n,
{
    if n <= 0 {
        0
    } else {
        challenge_weight(c_me, w, q, n - 1) + if q > c_me + (n - 1) {
            w[n - 1] as nat
        } else {
            0nat
        }
    }
}

/// Weight of the counts `c < n` at which the copycat challenges our bid of
/// `nq` and the bid holds.
pub open spec fn settled_weight(c_me: int, w: Seq<u64>, nq: int, n: int) -> nat
    decreases n,
{
    if n <= 0 {
        0
    } else {
        settled_weight(c_me, w, nq, n - 1) + if nq >= (n - 1) + 3 && nq <= c_me + (n - 1) {
            w[n - 1] as nat
        } else {
            0nat
        }
    }
}

/// The belief restricted to the counts at which the copycat raises our bid of `nq`.
pub open spec fn raisers(w: Seq<u64>, nq: int) -> Seq<u64> {
    Seq::new(
        6,
        |c: int|
            if nq < c + 3 {
                w[c]
            } else {
                0
            },
    )
}

/// Total weight of the first `n` counts.
pub open spec fn total_weight(w: Seq<u64>, n: int) -> nat
    decreases n,
{
    if n <= 0 {
        0
    } else {
        total_weight(w, n - 1) + w[n - 1] as nat
    }
}

/// Value of raising the last bid `q` by one, then playing on at our best.
pub open spec fn ride_weight(c_me: int, w: Seq<u64>, q: int) -> nat
    decreases 10 - q, 0int,
{
    settled_weight(c_me, w, q + 1, 6) + if q + 2 <= 10 {
        line_value(c_me, raisers(w, q + 1), q + 2)
    } else {
        0
    }
}

/// Value of our turn with the last bid at `q`: the better of challenging and
/// (below ten) riding.
pub open spec fn line_value(c_me: int, w: Seq<u64>, q: int) -> nat
    decreases 10 - q, 1int,
{
    let ch = challenge_weight(c_me, w, q, 6);
    if q >= 10 {
        ch
    } else {
        let ride = ride_weight(c_me, w, q);
        if ride > ch {
            ride
        } else {
            ch
        }
    }
}

proof fn lemma_challenge_le_total(c_me: int, w: Seq<u64>, q: int, n: int)
    ensures
        challenge_weight(c_me, w, q, n) <= total_weight(w, n),
    decreases n,
{
    if n > 0 {
        lemma_challenge_le_total(c_me, w, q, n - 1);
    }
}

proof fn lemma_split_le_total(c_me: int, w: Seq<u64>, nq: int, n: int)
    requires
        n <= 6,
        w.len() == 6,
    ensures
        settled_weight(c_me, w, nq, n) + total_weight(raisers(w, nq), n) <= total_weight(w, n),
    decreases n,
{
    if n > 0 {
        lemma_split_le_total(c_me, w, nq, n - 1);
    }
}

proof fn lemma_total_bound(w: Seq<u64>, n: int)
    requires
        0 <= n <= 6,
        w.len() == 6,
        forall|k: int| 0 <= k < 6 ==> w[k] <= 0x1_0000_0000,
    ensures
        total_weight(w, n) <= n * 0x1_0000_0000,
    decreases n,
{
    if n > 0 {
        lemma_total_bound(w, n - 1);
    }
}

/// A value never exceeds the total weight.
proof fn lemma_value_le_total(c_me: int, w: Seq<u64>, q: int)
    requires
        w.len() == 6,
    ensures
        line_value(c_me, w, q) <= total_weight(w, 6),
        q < 10 ==> ride_weight(c_me, w, q) <= total_weight(w, 6),
    decreases 10 - q,
{
    lemma_challenge_le_total(c_me, w, q, 6);
    if q < 10 {
        lemma_split_le_total(c_me, w, q + 1, 6);
        if q + 2 <= 10 {
            lemma_value_le_total(c_me, raisers(w, q + 1), q + 2);
        }
    }
}

fn weights_where_challenge_wins(c_me: u32, belief: &Vec<u64>, q: u32) -> (r: u64)
    requires
        belief@.len() == 6,
        forall|k: int| 0 <= k < 6 ==> belief@[k] <= 0x1_0000_0000,
    ensures
        r == challenge_weight(c_me as int, belief@, q as int, 6),
{
    let mut s: u64 = 0;
    let mut c: usize = 0;
    while c < 6
        invariant
            c <= 6,
            belief@.len() == 6,
            forall|k: int| 0 <= k < 6 ==> belief@[k] <= 0x1_0000_0000,
            s == challenge_weight(c_me as int, belief@, q as int, c as int),
            s <= c * 0x1_0000_0000,
        decreases 6 - c,
    {
        if (q as u64) > (c_me as u64) + (c as u64) {
            s = s + belief[c];
        }
        c = c + 1;
    }
    s
}

/// The weight of the ride and the belief of the counts at which the copycat raises.
fn settle_ride(c_me: u32, belief: &Vec<u64>, nq: u32) -> (r: (u64, Vec<u64>))
    requires
        belief@.len() == 6,
        forall|k: int| 0 <= k < 6 ==> belief@[k] <= 0x1_0000_0000,
    ensures
        r.0 == settled_weight(c_me as int, belief@, nq as int, 6),
        r.1@ == raisers(belief@, nq as int),
{
    let mut s: u64 = 0;
    let mut rest: Vec<u64> = Vec::new();
    let mut c: usize = 0;
    while c < 6
        invariant
            c <= 6,
            belief@.len() == 6,
            forall|k: int| 0 <= k < 6 ==> belief@[k] <= 0x1_0000_0000,
            s == settled_weight(c_me as int, belief@, nq as int, c as int),
            s <= c * 0x1_0000_0000,
            rest@.len() == c,
            forall|k: int| 0 <= k < c ==> rest@[k] == raisers(belief@, nq as int)[k],
        decreases 6 - c,
    {
        let opp_challenges = (nq as u64) >= (c as u64) + 3;
        if opp_challenges {
            if (nq as u64) <= (c_me as u64) + (c as u64) {
                s = s + belief[c];
            }
            rest.push(0);
        } else {
            rest.push(belief[c]);
        }
        c = c + 1;
    }
    proof {
        assert(rest@ =~= raisers(belief@, nq as int));
    }
    (s, rest)
}

/// Our value against a copycat with the last bid at `prev_q`, playing our
/// best from here, in units of the belief's weights.
pub fn copycat_value(c_me: u32, belief: &Vec<u64>, prev_q: u32) -> (r: u64)
    requires
        belief@.len() == 6,
        forall|k: int| 0 <= k < 6 ==> belief@[k] <= 0x1_0000_0000,
    ensures
        r == line_value(c_me as int, belief@, prev_q as int),
    decreases 10 - prev_q, 1int,
{
    let ch = weights_where_challenge_wins(c_me, belief, prev_q);
    if prev_q >= 10 {
        return ch;
    }
    let ride = ride_value(c_me, belief, prev_q);
    if ride > ch {
        ride
    } else {
        ch
    }
}

/// The value of riding the last bid `prev_q < 10`.
fn ride_value(c_me: u32, belief: &Vec<u64>, prev_q: u32) -> (r: u64)
    requires
        prev_q < 10,
        belief@.len() == 6,
        forall|k: int| 0 <= k < 6 ==> belief@[k] <= 0x1_0000_0000,
    ensures
        r == ride_weight(c_me as int, belief@, prev_q as int),
    decreases 10 - prev_q, 0int,
{
    let nq = prev_q + 1;
    let (settled, rest) = settle_ride(c_me, belief, nq);
    proof {
        lemma_split_le_total(c_me as int, belief@, nq as int, 6);
        lemma_total_bound(belief@, 6);
        assert forall|k: int| 0 <= k < 6 implies rest@[k] <= 0x1_0000_0000 by {
            assert(rest@[k] == raisers(belief@, nq as int)[k]);
        }
    }
    if nq + 1 <= 10 {
        let later = copycat_value(c_me, &rest, nq + 1);
        proof {
            lemma_value_le_total(c_me as int, rest@, (nq + 1) as int);
        }
        settled + later
    } else {
        settled
    }
}

/// Our best action against a copycat with the last bid (prev_q, face): ride
/// when that is worth strictly more than challenging, with its value.
pub open spec fn copycat_action(c_me: int, w: Seq<u64>, prev_q: int, face: u32) -> (Move, nat) {
    let ch = challenge_weight(c_me, w, prev_q, 6);
    if prev_q < 10 && ride_weight(c_me, w, prev_q) > ch {
        (Move::Bid(Bid { quantity: (prev_q + 1) as u32, face }), ride_weight(c_me, w, prev_q))
    } else {
        (Move::Challenge, ch)
    }
}

/// Our best action against a copycat, with its value.
pub fn optimal_action(c_me: u32, belief: &Vec<u64>, prev_q: u32, face: u32) -> (r: (Move, u64))
    requires
        belief@.len() == 6,
        forall|k: int| 0 <= k < 6 ==> belief@[k] <= 0x1_0000_0000,
    ensures
        r.0 == copycat_action(c_me as int, belief@, prev_q as int, face).0,
        r.1 == copycat_action(c_me as int, belief@, prev_q as int, face).1,
{
    let ch = weights_where_challenge_wins(c_me, belief, prev_q);
    if prev_q < 10 {
        let ride = ride_value(c_me, belief, prev_q);
        if ride > ch {
            return (Move::Bid(Bid { quantity: prev_q + 1, face }), ride);
        }
    }
    (Move::Challenge, ch)
}

// ---------------------------------------------------------------- what the raises reveal

/// The floor on the copycat's count that the opponent's entry `i` reveals:
/// raising a bid of `q` instead of challenging it means a count of at least
/// `q - 2` (clamped to 0..=6).
pub open spec fn entry_floor(h: Seq<HistoryEntry>, opp: u32, i: int) -> int {
    if 0 < i < h.len() && h[i].player_id == opp && h[i].mv is Bid {
        match h[i - 1].mv {
            Move::Bid(pb) => if pb.quantity - 2 < 0 {
                0
            } else if pb.quantity - 2 > 6 {
                6
            } else {
                pb.quantity - 2
            },
            Move::Challenge => 0,
        }
    } else {
        0
    }
}

/// The highest floor revealed by the first `n` entries.
pub open spec fn raise_floor(h: Seq<HistoryEntry>, opp: u32, n: int) -> int
    decreases n,
{
    if n <= 0 {
        0
    } else {
        let a = raise_floor(h, opp, n - 1);
        let b = entry_floor(h, opp, n - 1);
        if a >= b {
            a
        } else {
            b
        }
    }
}

proof fn lemma_raise_floor_range(h: Seq<HistoryEntry>, opp: u32, n: int)
    ensures
        0 <= raise_floor(h, opp, n) <= 6,
    decreases n,
{
    if n > 0 {
        lemma_raise_floor_range(h, opp, n - 1);
    }
}

/// Clears the weight of every count below what the opponent's raises reveal.
pub fn apply_belief_updates(belief: &mut Vec<u64>, ctx: &Context)
    requires
        old(belief)@.len() == 6,
        ctx.my_id <= 1,
    ensures
        final(belief)@.len() == 6,
        forall|c: int|
            0 <= c < 6 ==> final(belief)@[c] == if c < raise_floor(
                ctx.history@,
                (1 - ctx.my_id) as u32,
                ctx.history@.len() as int,
            ) {
                0
            } else {
                old(belief)@[c]
            },
{
    let opp_id = 1 - ctx.my_id;
    let h = ctx.history;
    let mut i: usize = 0;
    while i < h.len()
        invariant
            i <= h@.len(),
            h@ == ctx.history@,
            opp_id == 1 - ctx.my_id,
            belief@.len() == 6,
            forall|c: int|
                0 <= c < 6 ==> belief@[c] == if c < raise_floor(h@, opp_id, i as int) {
                    0
                } else {
                    old(belief)@[c]
                },
        decreases h@.len() - i,
    {
        proof {
            lemma_raise_floor_range(h@, opp_id, i as int);
        }
        let mut lb: usize = 0;
        if i > 0 && h[i].player_id == opp_id {
            if let Move::Bid(_) = h[i].mv {
                if let Move::Bid(pb) = h[i - 1].mv {
                    let l: i64 = pb.quantity as i64 - 2;
                    lb = if l < 0 {
                        0
                    } else if l > 6 {
                        6
                    } else {
                        l as usize
                    };
                }
            }
        }
        assert(lb == entry_floor(h@, opp_id, i as int));
        let mut c: usize = 0;
        while c < lb
            invariant
                c <= lb <= 6,
                lb == entry_floor(h@, opp_id, i as int),
                belief@.len() == 6,
                forall|k: int|
                    0 <= k < 6 ==> belief@[k] == if k < c || k < raise_floor(h@, opp_id, i as int) {
                        0
                    } else {
                        old(belief)@[k]
                    },
            decreases lb - c,
        {
            belief.set(c, 0);
            c = c + 1;
        }
        i = i + 1;
    }
}

} // verus!
