//! Liar's Dice rules: bids, moves, counting dice with wild ones, and the
//! referee that runs one two-player round.
use crate::rng::gen_range_inclusive_u32;
use rand::rngs::StdRng;
use vstd::prelude::*;

verus! {

/// A claim that at least `quantity` dice show `face` across both hands.
#[derive(Clone, Copy, Debug, PartialEq, Eq, Structural)]
pub struct Bid {
    pub quantity: u32,
    pub face: u32,
}

impl Bid {
    /// Ordering of bids: a higher quantity wins, and at equal quantity the higher face.
    pub open spec fn spec_beats(self, other: Bid) -> bool {
        self.quantity > other.quantity || (self.quantity == other.quantity && self.face > other.face)
    }

    /// Whether this bid raises `other`: more dice, or as many of a higher face.
    pub fn beats(self, other: Bid) -> (r: bool)
        ensures
            r == self.spec_beats(other),
    {
        self.quantity > other.quantity || (self.quantity == other.quantity && self.face > other.face)
    }
}

/// A bid on the table is well formed: quantity 1..=10 and face 1..=6.
pub open spec fn valid_bid(b: Bid) -> bool {
    1 <= b.quantity <= 10 && 1 <= b.face <= 6
}

#[derive(Clone, Copy, Debug, PartialEq, Eq, Structural)]
pub enum Move {
    Bid(Bid),
    Challenge,
}

#[derive(Clone, Copy, Debug)]
pub struct HistoryEntry {
    pub player_id: u32,
    pub mv: Move,
}

/// What a player sees when asked to move.
pub struct Context<'a> {
    pub my_id: u32,
    pub my_dice: &'a [u32],
    pub history: &'a [HistoryEntry],
    pub dice_per_player: u32,
}

/// Every bid recorded in `history` is well formed (as the referee lets through).
pub open spec fn history_ok(history: Seq<HistoryEntry>) -> bool {
    forall|i: int| 0 <= i < history.len() ==> entry_valid(#[trigger] history[i])
}

/// A recorded bid is well formed.
pub open spec fn entry_valid(e: HistoryEntry) -> bool {
    match e.mv {
        Move::Bid(b) => valid_bid(b),
        Move::Challenge => true,
    }
}

impl<'a> Context<'a> {
    /// The context is within machine limits and the rules: we hold at most
    /// 1000 dice (so counts fit in a `u32` with room to spare), the
    /// opponent's dice are few enough for exact probabilities in a `u64`, and
    /// every recorded bid is well formed.
    pub open spec fn well_formed(&self) -> bool {
        &&& self.my_dice@.len() <= 1000
        &&& self.dice_per_player <= 24
        &&& history_ok(self.history@)
        &&& self.history@.len() <= u32::MAX
        &&& self.my_id <= 1
    }
}

/// A Liar's Dice player.
pub trait Strategy {
    fn name(&self) -> &str;

    /// The moves this player may make as player `my_id` holding `my_dice`
    /// after `history`: a player whose decision is known narrows it; by
    /// default every move is allowed.
    open spec fn may_pick(my_id: u32, my_dice: Seq<u32>, history: Seq<HistoryEntry>, dice_per_player: u32, r: Move) -> bool {
        true
    }

    fn pick(&mut self, ctx: &Context) -> (r: Move)
        requires
            ctx.well_formed(),
        ensures
            Self::may_pick(ctx.my_id, ctx.my_dice@, ctx.history@, ctx.dice_per_player, r),
    ;
}

/// The last bid of a history is one of its entries.
pub proof fn lemma_last_bid_in_history(history: Seq<HistoryEntry>)
    ensures
        spec_last_bid(history) matches Some(b) ==> exists|i: int|
            0 <= i < history.len() && (#[trigger] history[i]).mv == Move::Bid(b),
    decreases history.len(),
{
    if history.len() > 0 {
        lemma_last_bid_in_history(history.drop_last());
        if let Move::Bid(b) = history.last().mv {
            assert(history[history.len() - 1].mv == Move::Bid(b));
        } else if let Some(b) = spec_last_bid(history.drop_last()) {
            let i = choose|i: int|
                0 <= i < history.drop_last().len() && (#[trigger] history.drop_last()[i]).mv == Move::Bid(b);
            assert(history[i] == history.drop_last()[i]);
        }
    }
}

/// The last bid of a well-formed history leaves room for a raise.
pub proof fn lemma_last_bid_ok(history: Seq<HistoryEntry>)
    requires
        history_ok(history),
    ensures
        spec_last_bid(history) matches Some(b) ==> valid_bid(b) && b.quantity < u32::MAX && b.face < u32::MAX,
{
    lemma_last_bid_in_history(history);
    if let Some(b) = spec_last_bid(history) {
        let i = choose|i: int| 0 <= i < history.len() && (#[trigger] history[i]).mv == Move::Bid(b);
        assert(entry_valid(history[i]));
    }
}

/// Whether a die showing `d` supports a claim on `face`: ones are wild for
/// every other face, and a claim on ones counts only literal ones.
pub open spec fn supports(d: u32, face: u32) -> bool {
    d == face || (face != 1 && d == 1)
}

/// Number of dice in `dice` that support a claim on `face`.
pub open spec fn spec_count_face(dice: Seq<u32>, face: u32) -> nat
    decreases dice.len(),
{
    if dice.len() == 0 {
        0
    } else {
        spec_count_face(dice.drop_last(), face) + if supports(dice.last(), face) {
            1nat
        } else {
            0nat
        }
    }
}

/// Number of dice in `dice` that literally show `face`.
pub open spec fn spec_count_literal(dice: Seq<u32>, face: u32) -> nat
    decreases dice.len(),
{
    if dice.len() == 0 {
        0
    } else {
        spec_count_literal(dice.drop_last(), face) + if dice.last() == face {
            1nat
        } else {
            0nat
        }
    }
}

/// Count of dice matching `face`, with 1s wild (1s always count toward any face).
/// If face == 1, only literal 1s count (they aren't double-counted).
pub fn count_face(dice: &[u32], face: u32) -> (r: u32)
    requires
        dice@.len() <= u32::MAX,
    ensures
        r == spec_count_face(dice@, face),
{
    let mut n: u32 = 0;
    let mut i: usize = 0;
    while i < dice.len()
        invariant
            i <= dice@.len(),
            dice@.len() <= u32::MAX,
            n == spec_count_face(dice@.take(i as int), face),
            n <= i,
        decreases dice@.len() - i,
    {
        proof {
            assert(dice@.take(i + 1).drop_last() =~= dice@.take(i as int));
        }
        if dice[i] == face || (face != 1 && dice[i] == 1) {
            n = n + 1;
        }
        i = i + 1;
    }
    proof {
        assert(dice@.take(dice@.len() as int) =~= dice@);
    }
    n
}

/// Number of dice in `dice` that literally show `face` (ones are not wild here).
pub fn count_literal(dice: &[u32], face: u32) -> (r: u32)
    requires
        dice@.len() <= u32::MAX,
    ensures
        r == spec_count_literal(dice@, face),
{
    let mut n: u32 = 0;
    let mut i: usize = 0;
    while i < dice.len()
        invariant
            i <= dice@.len(),
            dice@.len() <= u32::MAX,
            n == spec_count_literal(dice@.take(i as int), face),
            n <= i,
        decreases dice@.len() - i,
    {
        proof {
            assert(dice@.take(i + 1).drop_last() =~= dice@.take(i as int));
        }
        if dice[i] == face {
            n = n + 1;
        }
        i = i + 1;
    }
    proof {
        assert(dice@.take(dice@.len() as int) =~= dice@);
    }
    n
}

/// A count never exceeds the number of dice.
pub proof fn lemma_count_face_bounded(dice: Seq<u32>, face: u32)
    ensures
        spec_count_face(dice, face) <= dice.len(),
    decreases dice.len(),
{
    if dice.len() > 0 {
        lemma_count_face_bounded(dice.drop_last(), face);
    }
}

/// Counting over two hands put together adds the counts of each hand.
pub proof fn lemma_count_face_concat(a: Seq<u32>, b: Seq<u32>, face: u32)
    ensures
        spec_count_face(a + b, face) == spec_count_face(a, face) + spec_count_face(b, face),
    decreases b.len(),
{
    if b.len() == 0 {
        assert(a + b =~= a);
    } else {
        lemma_count_face_concat(a, b.drop_last(), face);
        assert((a + b).drop_last() =~= a + b.drop_last());
    }
}

/// Ones are wild: a claim on any face other than one is supported by the dice
/// showing that face plus the dice showing one; a claim on ones by literal ones only.
pub proof fn lemma_ones_are_wild(dice: Seq<u32>, face: u32)
    ensures
        face != 1 ==> spec_count_face(dice, face) == spec_count_literal(dice, face)
            + spec_count_literal(dice, 1),
        face == 1 ==> spec_count_face(dice, face) == spec_count_literal(dice, 1),
    decreases dice.len(),
{
    if dice.len() > 0 {
        lemma_ones_are_wild(dice.drop_last(), face);
    }
}

/// Counting literal faces is counting in the multiset of the dice.
proof fn lemma_literal_is_multiset_count(dice: Seq<u32>, face: u32)
    ensures
        spec_count_literal(dice, face) == dice.to_multiset().count(face),
    decreases dice.len(),
{
    broadcast use vstd::multiset::group_multiset_axioms;

    if dice.len() == 0 {
        vstd::seq_lib::to_multiset_len(dice);
        assert(dice.to_multiset().len() == 0);
        assert(dice.to_multiset() =~= vstd::multiset::Multiset::<u32>::empty());
    } else {
        let t = dice.drop_last();
        lemma_literal_is_multiset_count(t, face);
        assert(t.push(dice.last()) =~= dice);
        vstd::seq_lib::to_multiset_build(t, dice.last());
    }
}

/// The count supporting a face depends only on which dice there are, not on
/// their order: two hands that are rearrangements of each other count alike.
pub proof fn lemma_count_face_order_free(d1: Seq<u32>, d2: Seq<u32>, face: u32)
    requires
        d1.to_multiset() == d2.to_multiset(),
    ensures
        spec_count_face(d1, face) == spec_count_face(d2, face),
{
    lemma_ones_are_wild(d1, face);
    lemma_ones_are_wild(d2, face);
    lemma_literal_is_multiset_count(d1, face);
    lemma_literal_is_multiset_count(d2, face);
    lemma_literal_is_multiset_count(d1, 1);
    lemma_literal_is_multiset_count(d2, 1);
}

/// The most recent bid in `history`, if any.
pub open spec fn spec_last_bid(history: Seq<HistoryEntry>) -> Option<Bid>
    decreases history.len(),
{
    if history.len() == 0 {
        None
    } else {
        match history.last().mv {
            Move::Bid(b) => Some(b),
            Move::Challenge => spec_last_bid(history.drop_last()),
        }
    }
}

/// The most recent bid in `history`, if any.
pub fn last_bid_of(history: &[HistoryEntry]) -> (r: Option<Bid>)
    ensures
        r == spec_last_bid(history@),
{
    let mut i: usize = history.len();
    proof {
        assert(history@.take(i as int) =~= history@);
    }
    while i > 0
        invariant
            i <= history@.len(),
            spec_last_bid(history@) == spec_last_bid(history@.take(i as int)),
        decreases i,
    {
        proof {
            assert(history@.take(i - 1) =~= history@.take(i as int).drop_last());
        }
        match history[i - 1].mv {
            Move::Bid(b) => {
                return Some(b);
            },
            Move::Challenge => {},
        }
        i = i - 1;
    }
    proof {
        assert(history@.take(0) =~= Seq::<HistoryEntry>::empty());
    }
    None
}

#[derive(Clone, Copy, Debug, PartialEq, Eq, Structural)]
pub enum Outcome {
    AWins,
    BWins,
}

/// Whether the player seated first in a pairing won a round, given whether it
/// bid second in that round (the seats swap from one round to the next).
pub fn first_seat_won(outcome: Outcome, swapped: bool) -> (r: bool)
    ensures
        r == if swapped {
            outcome == Outcome::BWins
        } else {
            outcome == Outcome::AWins
        },
{
    match outcome {
        Outcome::AWins => !swapped,
        Outcome::BWins => swapped,
    }
}

pub struct MatchResult {
    pub outcome: Outcome,
    pub final_bid: Option<Bid>,
    pub actual_count: u32,
    pub a_dice: Vec<u32>,
    pub b_dice: Vec<u32>,
    pub challenger_id: u32,  // who issued the challenge
    /// The entries of the round as the referee recorded them.
    pub history: Ghost<Seq<HistoryEntry>>,
    /// The move each player returned at each entry, before the referee's ruling.
    pub picks: Ghost<Seq<Move>>,
}

/// The move the referee accepts in place of `mv` when the last bid on the
/// table is `last`: an opening challenge or malformed opening becomes the
/// bid (1, 2); a later malformed or non-raising bid becomes a challenge.
pub open spec fn spec_referee(mv: Move, last: Option<Bid>) -> Move {
    match (mv, last) {
        (Move::Challenge, None) => Move::Bid(Bid { quantity: 1, face: 2 }),
        (Move::Bid(b), None) => if valid_bid(b) {
            Move::Bid(b)
        } else {
            Move::Bid(Bid { quantity: 1, face: 2 })
        },
        (Move::Bid(b), Some(prev)) => if valid_bid(b) && b.spec_beats(prev) {
            Move::Bid(b)
        } else {
            Move::Challenge
        },
        (Move::Challenge, Some(_)) => Move::Challenge,
    }
}

/// Validates a move against the last bid on the table.
pub fn referee(mv: Move, last: Option<Bid>) -> (r: Move)
    ensures
        r == spec_referee(mv, last),
        // an accepted bid is well formed and raises the last bid
        r matches Move::Bid(b) ==> valid_bid(b) && (last matches Some(p) ==> b.spec_beats(p)),
        // a round is never opened with a challenge
        last is None ==> r is Bid,
{
    match (mv, last) {
        (Move::Challenge, None) => Move::Bid(Bid { quantity: 1, face: 2 }),
        (Move::Bid(b), None) => {
            if b.quantity == 0 || b.quantity > 10 || b.face < 1 || b.face > 6 {
                Move::Bid(Bid { quantity: 1, face: 2 })
            } else {
                Move::Bid(b)
            }
        },
        (Move::Bid(b), Some(prev)) => {
            if b.quantity == 0 || b.quantity > 10 || b.face < 1 || b.face > 6 || !b.beats(prev) {
                Move::Challenge
            } else {
                Move::Bid(b)
            }
        },
        (Move::Challenge, Some(_)) => Move::Challenge,
    }
}

/// The winner of a challenge on `bid` issued by `challenger`: the bidder
/// wins when the dice support the bid, the challenger otherwise.
pub open spec fn spec_winner(bid: Bid, actual: nat, challenger: u32) -> Outcome {
    let bidder_wins = actual >= bid.quantity;
    let winner_id: u32 = if bidder_wins {
        (1 - challenger) as u32
    } else {
        challenger
    };
    if winner_id == 0 {
        Outcome::AWins
    } else {
        Outcome::BWins
    }
}

/// A finished round is consistent with the dice that were rolled.
pub open spec fn round_settled(r: MatchResult, a_dice: Seq<u32>, b_dice: Seq<u32>) -> bool {
    &&& r.a_dice@ == a_dice
    &&& r.b_dice@ == b_dice
    &&& r.challenger_id == 0 || r.challenger_id == 1
    &&& r.final_bid matches Some(bid) && {
        &&& valid_bid(bid)
        &&& r.actual_count == spec_count_face(a_dice + b_dice, bid.face)
        &&& r.outcome == spec_winner(bid, r.actual_count as nat, r.challenger_id)
    }
}

/// Settles a challenge on `prev` against the revealed dice.
fn settle(
    prev: Bid,
    a_dice: Vec<u32>,
    b_dice: Vec<u32>,
    challenger_id: u32,
    Ghost(history): Ghost<Seq<HistoryEntry>>,
    Ghost(picks): Ghost<Seq<Move>>,
) -> (r: MatchResult)
    requires
        valid_bid(prev),
        challenger_id == 0 || challenger_id == 1,
        a_dice.len() <= 1000,
        b_dice.len() <= 1000,
    ensures
        round_settled(r, a_dice@, b_dice@),
        r.final_bid == Some(prev),
        r.challenger_id == challenger_id,
        r.history@ == history,
        r.picks@ == picks,
{
    proof {
        lemma_count_face_concat(a_dice@, b_dice@, prev.face);
        lemma_count_face_bounded(a_dice@, prev.face);
        lemma_count_face_bounded(b_dice@, prev.face);
    }
    let actual = count_face(a_dice.as_slice(), prev.face) + count_face(b_dice.as_slice(), prev.face);
    let bidder_wins = actual >= prev.quantity;
    let bidder_id = 1 - challenger_id;
    let outcome = if bidder_wins {
        if bidder_id == 0 {
            Outcome::AWins
        } else {
            Outcome::BWins
        }
    } else if challenger_id == 0 {
        Outcome::AWins
    } else {
        Outcome::BWins
    };
    MatchResult {
        outcome,
        final_bid: Some(prev),
        actual_count: actual,
        a_dice,
        b_dice,
        challenger_id,
        history: Ghost(history),
        picks: Ghost(picks),
    }
}

/// The place of a bid in the order of raises: 1 for one one, 60 for ten sixes.
pub open spec fn bid_rank(b: Bid) -> int {
    (b.quantity - 1) * 6 + b.face
}

/// Entry `i` of a round: player `i % 2` was shown its own dice, the entries
/// before it and five dice a player, returned `picks[i]` (a move it may make
/// there), and the referee recorded its ruling on that move.
pub open spec fn round_entry<A: Strategy + ?Sized, B: Strategy + ?Sized>(
    a_dice: Seq<u32>,
    b_dice: Seq<u32>,
    h: Seq<HistoryEntry>,
    picks: Seq<Move>,
    i: int,
) -> bool {
    &&& h[i].player_id == (i % 2) as u32
    &&& h[i].mv == spec_referee(picks[i], spec_last_bid(h.take(i)))
    &&& if i % 2 == 0 {
        A::may_pick(0, a_dice, h.take(i), 5, picks[i])
    } else {
        B::may_pick(1, b_dice, h.take(i), 5, picks[i])
    }
}

/// A round played out on these dice: A opens and the players alternate, each
/// entry as `round_entry` says; every entry but the last is a bid, the last a
/// challenge by the player who made it, settled on the last bid before it.
/// Bids strictly rise, so a round has at most 61 entries.
pub open spec fn round_record<A: Strategy + ?Sized, B: Strategy + ?Sized>(
    r: MatchResult,
    a_dice: Seq<u32>,
    b_dice: Seq<u32>,
) -> bool {
    let h = r.history@;
    let p = r.picks@;
    &&& h.len() == p.len()
    &&& 2 <= h.len() <= 61
    &&& forall|i: int| 0 <= i < h.len() ==> #[trigger] round_entry::<A, B>(a_dice, b_dice, h, p, i)
    &&& forall|i: int| 0 <= i < h.len() - 1 ==> (#[trigger] h[i]).mv is Bid
    &&& h.last().mv is Challenge
    &&& r.challenger_id == h.last().player_id
    &&& r.final_bid == spec_last_bid(h)
}

/// Plays a single round on the given dice. Player A is id=0 and bids first.
/// Returns who won and the revealed state.
pub fn play_round_with_dice<A: Strategy + ?Sized, B: Strategy + ?Sized>(
    a: &mut A,
    b: &mut B,
    a_dice: Vec<u32>,
    b_dice: Vec<u32>,
) -> (r: MatchResult)
    requires
        a_dice.len() <= 1000,
        b_dice.len() <= 1000,
    ensures
        round_settled(r, a_dice@, b_dice@),
        round_record::<A, B>(r, a_dice@, b_dice@),
{
    let mut history: Vec<HistoryEntry> = Vec::new();
    let mut last_bid: Option<Bid> = None;
    let mut turn: u32 = 0;  // 0 = A, 1 = B
    let ghost mut picks: Seq<Move> = Seq::empty();

    loop
        invariant
            turn == history@.len() % 2,
            history@.len() <= 60,
            history@.len() == picks.len(),
            last_bid == spec_last_bid(history@),
            history@.len() > 0 ==> last_bid is Some && history@.len() <= bid_rank(last_bid->0),
            last_bid matches Some(p) ==> valid_bid(p),
            a_dice.len() <= 1000,
            b_dice.len() <= 1000,
            forall|i: int| 0 <= i < history@.len() ==> entry_valid(#[trigger] history@[i]),
            forall|i: int| 0 <= i < history@.len() ==> (#[trigger] history@[i]).mv is Bid,
            forall|i: int| 0 <= i < history@.len() ==> #[trigger] round_entry::<A, B>(a_dice@, b_dice@, history@, picks, i),
        decreases 60 - history@.len(),
    {
        let ghost before = history@;
        let ghost picks_before = picks;
        let mv = if turn == 0 {
            let ctx = Context {
                my_id: turn,
                my_dice: a_dice.as_slice(),
                history: history.as_slice(),
                dice_per_player: 5,
            };
            a.pick(&ctx)
        } else {
            let ctx = Context {
                my_id: turn,
                my_dice: b_dice.as_slice(),
                history: history.as_slice(),
                dice_per_player: 5,
            };
            b.pick(&ctx)
        };

        // Validate: first move must be a bid; later moves must beat the last bid.
        let valid_mv = referee(mv, last_bid);
        history.push(HistoryEntry { player_id: turn, mv: valid_mv });
        proof {
            picks = picks.push(mv);
            let n = before.len() as int;
            assert(history@.take(n) =~= before);
            assert forall|i: int| 0 <= i < history@.len() implies entry_valid(#[trigger] history@[i]) by {
                if i == history@.len() - 1 {
                    assert(history@[i].mv == valid_mv);
                }
            }
            assert forall|i: int| 0 <= i < history@.len() implies #[trigger] round_entry::<A, B>(
                a_dice@,
                b_dice@,
                history@,
                picks,
                i,
            ) by {
                if i < n {
                    assert(history@.take(i) =~= before.take(i));
                    assert(round_entry::<A, B>(a_dice@, b_dice@, before, picks_before, i));
                }
            }
        }

        match valid_mv {
            Move::Bid(bid) => {
                last_bid = Some(bid);
                turn = 1 - turn;
            },
            Move::Challenge => {
                let prev = match last_bid {
                    Some(p) => p,
                    None => {
                        // the referee never lets a round open with a challenge
                        proof {
                            assert(false);
                        }
                        Bid { quantity: 1, face: 2 }
                    },
                };
                proof {
                    assert(history@.drop_last() =~= before);
                }
                return settle(prev, a_dice, b_dice, turn, Ghost(history@), Ghost(picks));
            },
        }

        // Safety: bids strictly increase; max bid is (10, 6). Cap rounds.
        if history.len() > 80 {
            let prev = match last_bid {
                Some(p) => p,
                None => Bid { quantity: 1, face: 2 },
            };
            return settle(prev, a_dice, b_dice, turn, Ghost(history@), Ghost(picks));
        }
    }
}

/// Every die shows a face from one to six.
pub open spec fn dice_ok(dice: Seq<u32>) -> bool {
    forall|i: int| 0 <= i < dice.len() ==> 1 <= #[trigger] dice[i] <= 6
}

/// Rolls `n` fair dice.
pub fn roll_dice(rng: &mut StdRng, n: u32) -> (r: Vec<u32>)
    ensures
        r@.len() == n,
        dice_ok(r@),
{
    let mut out: Vec<u32> = Vec::new();
    let mut i: u32 = 0;
    while i < n
        invariant
            i <= n,
            out@.len() == i,
            dice_ok(out@),
        decreases n - i,
    {
        let d = gen_range_inclusive_u32(rng, 1, 6);
        out.push(d);
        i = i + 1;
    }
    out
}

/// Plays a single round on freshly rolled dice. Player A is id=0 and bids first.
/// Returns who won and the revealed state.
pub fn play_round<A: Strategy + ?Sized, B: Strategy + ?Sized>(a: &mut A, b: &mut B, rng: &mut StdRng) -> (r:
    MatchResult)
    ensures
        r.a_dice@.len() == 5 && dice_ok(r.a_dice@),
        r.b_dice@.len() == 5 && dice_ok(r.b_dice@),
        round_settled(r, r.a_dice@, r.b_dice@),
        round_record::<A, B>(r, r.a_dice@, r.b_dice@),
{
    let a_dice = roll_dice(rng, 5);
    let b_dice = roll_dice(rng, 5);
    play_round_with_dice(a, b, a_dice, b_dice)
}

} // verus!
