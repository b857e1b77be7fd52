//! Helpers shared by the Liar's Dice players: the last bid, the legal raises,
//! and the strongest face of a hand.
use crate::dice::{
    count_face, last_bid_of, spec_count_face, spec_last_bid, Bid, Context, HistoryEntry, Move,
};
use vstd::prelude::*;

verus! {

/// The most recent bid on the table.
pub fn last_bid(ctx: &Context) -> (r: Option<Bid>)
    ensures
        r == spec_last_bid(ctx.history@),
{
    last_bid_of(ctx.history)
}

/// Number of hidden opponent dice (both players hold the same number).
pub fn opp_dice(ctx: &Context) -> (r: u32)
    ensures
        r == ctx.dice_per_player,
{
    ctx.dice_per_player
}

/// `b` may follow `prev`: a higher face at the same quantity, or any face at
/// a higher quantity up to ten. With nothing on the table, any bid of
/// quantity one to ten.
pub open spec fn is_next_bid(prev: Option<Bid>, b: Bid) -> bool {
    match prev {
        None => 1 <= b.quantity <= 10 && 1 <= b.face <= 6,
        Some(p) => (b.quantity == p.quantity && p.face < b.face <= 6) || (p.quantity < b.quantity
            <= 10 && 1 <= b.face <= 6),
    }
}

/// The bid sits strictly before position (q, f) in (quantity, face) order.
pub open spec fn before(b: Bid, q: int, f: int) -> bool {
    b.quantity < q || (b.quantity == q && b.face < f)
}

/// `bids` lists exactly the bids that may follow `prev`, in increasing order.
pub open spec fn lists_next_bids(prev: Option<Bid>, bids: Seq<Bid>) -> bool {
    &&& forall|i: int| 0 <= i < bids.len() ==> is_next_bid(prev, #[trigger] bids[i])
    &&& forall|i: int, j: int| 0 <= i < j < bids.len() ==> (#[trigger] bids[j]).spec_beats(#[trigger] bids[i])
    &&& forall|b: Bid| is_next_bid(prev, b) ==> bids.contains(b)
}

/// Appends the bids (q, f0), (q, f0 + 1), ..., (q, 6).
fn push_row(out: &mut Vec<Bid>, q: u32, f0: u32, Ghost(prev): Ghost<Option<Bid>>)
    requires
        1 <= f0,
        forall|i: int| 0 <= i < old(out)@.len() ==> is_next_bid(prev, #[trigger] old(out)@[i]),
        forall|i: int| 0 <= i < old(out)@.len() ==> before(#[trigger] old(out)@[i], q as int, f0 as int),
        forall|i: int, j: int|
            0 <= i < j < old(out)@.len() ==> (#[trigger] old(out)@[j]).spec_beats(#[trigger] old(out)@[i]),
        forall|f: u32| f0 <= f <= 6 ==> is_next_bid(prev, Bid { quantity: q, face: f }),
        old(out)@.len() <= 66,
    ensures
        final(out)@.len() == old(out)@.len() + if f0 <= 6 {
            7 - f0
        } else {
            0
        },
        forall|i: int| 0 <= i < old(out)@.len() ==> final(out)@[i] == old(out)@[i],
        forall|i: int| 0 <= i < final(out)@.len() ==> is_next_bid(prev, #[trigger] final(out)@[i]),
        forall|i: int| 0 <= i < final(out)@.len() ==> before(#[trigger] final(out)@[i], q + 1, 1int),
        forall|i: int, j: int|
            0 <= i < j < final(out)@.len() ==> (#[trigger] final(out)@[j]).spec_beats(
                #[trigger] final(out)@[i],
            ),
        forall|f: u32| f0 <= f <= 6 ==> final(out)@.contains(Bid { quantity: q, face: f }),
{
    let ghost start = out@.len();
    let mut f = f0;
    while f <= 6
        invariant
            f0 <= f <= 7 || (f == f0 && f0 > 6),
            1 <= f0,
            out@.len() == start + if f0 <= 6 {
                f - f0
            } else {
                0
            },
            start <= 66,
            forall|i: int| 0 <= i < start ==> out@[i] == old(out)@[i],
            forall|i: int| 0 <= i < out@.len() ==> is_next_bid(prev, #[trigger] out@[i]),
            forall|i: int| 0 <= i < out@.len() ==> before(#[trigger] out@[i], q as int, f as int),
            forall|i: int| 0 <= i < out@.len() ==> before(#[trigger] out@[i], q + 1, 1int),
            forall|i: int, j: int|
                0 <= i < j < out@.len() ==> (#[trigger] out@[j]).spec_beats(#[trigger] out@[i]),
            forall|g: u32| f0 <= g <= 6 ==> is_next_bid(prev, Bid { quantity: q, face: g }),
            forall|g: u32| f0 <= g < f ==> out@.contains(Bid { quantity: q, face: g }),
            forall|i: int| 0 <= i < start ==> is_next_bid(prev, #[trigger] old(out)@[i]),
        decreases 7 - f,
    {
        let ghost before_push = out@;
        let b = Bid { quantity: q, face: f };
        out.push(b);
        proof {
            assert(out@[out@.len() - 1] == b);
            assert forall|g: u32| f0 <= g < f + 1 implies out@.contains(Bid { quantity: q, face: g }) by {
                if g == f {
                    assert(out@[out@.len() - 1] == Bid { quantity: q, face: g });
                } else {
                    assert(before_push.contains(Bid { quantity: q, face: g }));
                    let idx = choose|idx: int|
                        0 <= idx < before_push.len() && before_push[idx] == Bid { quantity: q, face: g };
                    assert(out@ =~= before_push.push(b));
                    assert(out@[idx] == before_push[idx]);
                }
            }
        }
        f = f + 1;
    }
}

/// All bids strictly greater than `prev`, capped at (10, 6), in increasing order.
pub fn legal_next_bids(prev: Option<Bid>) -> (out: Vec<Bid>)
    requires
        prev matches Some(p) ==> p.quantity < u32::MAX && p.face < u32::MAX,
    ensures
        lists_next_bids(prev, out@),
        out@.len() <= 66,
{
    let mut out: Vec<Bid> = Vec::new();
    let (min_q, min_f) = match prev {
        None => (1u32, 1u32),
        Some(b) => (b.quantity, b.face),
    };
    // Same quantity, higher face (only if prev exists)
    let first_q: u32;
    if prev.is_some() {
        push_row(&mut out, min_q, min_f + 1, Ghost(prev));
        first_q = min_q;
    } else {
        push_row(&mut out, 1, 1, Ghost(prev));
        first_q = 1;
    }
    let mut q = min_q + 1;
    if first_q >= q {
        q = first_q + 1;
    }
    proof {
        assert(q == first_q + 1);
        assert forall|b: Bid| is_next_bid(prev, b) && before(b, q as int, 1int) implies out@.contains(b) by {
            assert(b == Bid { quantity: first_q, face: b.face });
            assert(out@.contains(Bid { quantity: first_q, face: b.face }));
        }
    }
    while q <= 10
        invariant
            q == first_q + 1 || (first_q < q <= 11),
            q <= 11 || q == first_q + 1,
            prev matches Some(p) ==> first_q == p.quantity,
            prev is None ==> first_q == 1,
            q > first_q,
            out@.len() <= 6 * (q - first_q),
            forall|i: int| 0 <= i < out@.len() ==> is_next_bid(prev, #[trigger] out@[i]),
            forall|i: int| 0 <= i < out@.len() ==> before(#[trigger] out@[i], q as int, 1int),
            forall|i: int, j: int|
                0 <= i < j < out@.len() ==> (#[trigger] out@[j]).spec_beats(#[trigger] out@[i]),
            forall|b: Bid| is_next_bid(prev, b) && before(b, q as int, 1int) ==> out@.contains(b),
        decreases 11 - q,
    {
        let ghost old_out = out@;
        push_row(&mut out, q, 1, Ghost(prev));
        proof {
            assert forall|b: Bid| is_next_bid(prev, b) && before(b, q + 1, 1int) implies out@.contains(b) by {
                if b.quantity == q {
                    assert(b == Bid { quantity: q, face: b.face });
                    assert(out@.contains(Bid { quantity: q, face: b.face }));
                } else {
                    assert(old_out.contains(b));
                    let idx = choose|idx: int| 0 <= idx < old_out.len() && old_out[idx] == b;
                    assert(out@[idx] == old_out[idx]);
                }
            }
        }
        q = q + 1;
    }
    proof {
        assert forall|b: Bid| is_next_bid(prev, b) implies out@.contains(b) by {
            assert(before(b, q as int, 1int));
        }
    }
    out
}

/// The strongest face of a hand other than one, wilds counted: the first
/// face from two to six with the largest count.
pub open spec fn spec_best_face(dice: Seq<u32>) -> u32 {
    spec_best_face_from(dice, 6)
}

/// The strongest face among two..=`upto` (first one on ties).
pub open spec fn spec_best_face_from(dice: Seq<u32>, upto: u32) -> u32
    decreases upto,
{
    if upto <= 2 {
        2
    } else {
        let prev = spec_best_face_from(dice, (upto - 1) as u32);
        if spec_count_face(dice, upto) > spec_count_face(dice, prev) {
            upto
        } else {
            prev
        }
    }
}

proof fn lemma_best_face_range(dice: Seq<u32>, upto: u32)
    ensures
        2 <= spec_best_face_from(dice, upto) <= if upto <= 2 {
            2
        } else {
            upto
        },
    decreases upto,
{
    if upto > 2 {
        lemma_best_face_range(dice, (upto - 1) as u32);
    }
}

/// Most-numerous face with wilds counted, excluding face=1 to avoid the
/// weak 1/6 wildless face.
pub fn best_face(dice: &[u32]) -> (r: u32)
    requires
        dice@.len() <= u32::MAX,
    ensures
        r == spec_best_face(dice@),
        2 <= r <= 6,
{
    let mut best = 2u32;
    let mut best_c = count_face(dice, 2);
    let mut f = 3u32;
    while f <= 6
        invariant
            3 <= f <= 7,
            dice@.len() <= u32::MAX,
            best == spec_best_face_from(dice@, (f - 1) as u32),
            best_c == spec_count_face(dice@, best),
        decreases 7 - f,
    {
        let c = count_face(dice, f);
        if c > best_c {
            best_c = c;
            best = f;
        }
        f = f + 1;
    }
    proof {
        lemma_best_face_range(dice@, 6);
    }
    best
}


/// From entry `i` on, every bid `who` makes raises the bid before it by one on
/// the same face, and nobody challenges; `(q, f)` is the bid before entry `i`.
pub open spec fn raises_by_one_from(h: Seq<HistoryEntry>, i: int, q: u32, f: u32, who: u32) -> bool
    decreases h.len() - i,
{
    if i < 0 || i >= h.len() {
        true
    } else {
        match h[i].mv {
            Move::Challenge => false,
            Move::Bid(b) => if h[i].player_id == who && (b.face != f || b.quantity != q + 1) {
                false
            } else {
                raises_by_one_from(h, i + 1, b.quantity, b.face, who)
            },
        }
    }
}

/// How many bids `who` makes from entry `i` on.
pub open spec fn bids_by_from(h: Seq<HistoryEntry>, i: int, who: u32) -> nat
    decreases h.len() - i,
{
    if i < 0 || i >= h.len() {
        0
    } else {
        bids_by_from(h, i + 1, who) + if h[i].player_id == who && h[i].mv is Bid {
            1nat
        } else {
            0nat
        }
    }
}

/// Scans `history` from entry `start` on: whether every bid by `who` raises
/// the bid before it by one on the same face (with no challenge anywhere),
/// and how many bids `who` made.
pub fn scan_raises(history: &[HistoryEntry], start: usize, q0: u32, f0: u32, who: u32) -> (r: (bool, u32))
    requires
        1 <= start <= history@.len(),
        history@.len() <= u32::MAX,
    ensures
        r.0 == raises_by_one_from(history@, start as int, q0, f0, who),
        r.0 ==> r.1 == bids_by_from(history@, start as int, who),
{
    let mut pq = q0;
    let mut pf = f0;
    let mut raises: u32 = 0;
    let mut i = start;
    while i < history.len()
        invariant
            start <= i <= history@.len(),
            history@.len() <= u32::MAX,
            raises <= i,
            raises_by_one_from(history@, start as int, q0, f0, who) == raises_by_one_from(
                history@,
                i as int,
                pq,
                pf,
                who,
            ),
            raises + bids_by_from(history@, i as int, who) == bids_by_from(history@, start as int, who),
        decreases history@.len() - i,
    {
        match history[i].mv {
            Move::Bid(b) => {
                if history[i].player_id == who {
                    if b.face != pf || b.quantity as u64 != pq as u64 + 1 {
                        return (false, raises);
                    }
                    raises = raises + 1;
                }
                pq = b.quantity;
                pf = b.face;
            },
            Move::Challenge => {
                return (false, raises);
            },
        }
        i = i + 1;
    }
    (true, raises)
}

/// Returns true if v11's we-open detector would still match on the current
/// history: the other player opened and every one of *our* bids so far is
/// +1 on the prev bid's face.
pub open spec fn spec_branch3_still_alive(h: Seq<HistoryEntry>, me: u32) -> bool {
    h.len() > 0 && h[0].player_id != me && match h[0].mv {
        Move::Bid(b) => raises_by_one_from(h, 1, b.quantity, b.face, me),
        Move::Challenge => false,
    }
}

/// Returns true if v11.detect_we_open_raises would still match on the
/// current history — i.e., v11 opened and every one of *our* bids so far
/// is +1 on the prev bid's face.
pub fn branch3_still_alive(ctx: &Context) -> (r: bool)
    requires
        ctx.history@.len() <= u32::MAX,
    ensures
        r == spec_branch3_still_alive(ctx.history@, ctx.my_id),
{
    if ctx.history.len() == 0 {
        return false;
    }
    let first = ctx.history[0];
    if first.player_id == ctx.my_id {
        return false;
    }
    match first.mv {
        Move::Bid(b) => scan_raises(ctx.history, 1, b.quantity, b.face, ctx.my_id).0,
        Move::Challenge => false,
    }
}

} // verus!
