//! Replay fixtures for recorded losses.
//!
//! Each fixture is the state just before htq's final (losing) move. The
//! runner reconstructs the Context, asks the bot what it would do, and
//! reports whether that move wins against the known opponent dice
//! (assuming flc challenges any bid where its own uniform-prior
//! P(bid succeeds) < 0.30, mirroring copycat).
use crate::chance::{below_pct, p_bid_succeeds, spec_p_bid_succeeds};
use crate::dice::{
    count_face, entry_valid, lemma_count_face_bounded, lemma_count_face_concat, spec_count_face,
    spec_last_bid, Bid, Context, HistoryEntry, Move, Strategy, history_ok,
};
use vstd::prelude::*;

verus! {

/// One step in the recorded bid history before htq's final decision.
#[derive(Clone, Copy, Debug)]
pub struct BidStep {
    pub player_id: u32,  // 0 = htq, 1 = flc
    pub q: u32,
    pub f: u32,
}

pub struct Fixture {
    pub name: &'static str,
    pub htq_dice: Vec<u32>,
    pub flc_dice: Vec<u32>,
    /// htq's player id in this fixture (0 unless noted).
    pub htq_id: u32,
    pub history: Vec<BidStep>,
}

impl Fixture {
    /// A fixture is well formed: two five-dice hands, htq is player 0 or 1,
    /// and the recorded bids are well formed.
    pub open spec fn well_formed(&self) -> bool {
        &&& self.htq_dice@.len() == 5
        &&& self.flc_dice@.len() == 5
        &&& self.htq_id <= 1
        &&& self.history@.len() <= 60
        &&& forall|i: int|
            0 <= i < self.history@.len() ==> 1 <= (#[trigger] self.history@[i]).q <= 10 && 1
                <= self.history@[i].f <= 6
    }
}

fn step(player_id: u32, q: u32, f: u32) -> (r: BidStep)
    ensures
        r.player_id == player_id && r.q == q && r.f == f,
{
    BidStep { player_id, q, f }
}

/// A recorded step as a spec value.
pub open spec fn bs(player_id: u32, q: u32, f: u32) -> BidStep {
    BidStep { player_id, q, f }
}

/// The `i`-th recorded loss: htq's dice, flc's dice, htq's id and the bids
/// made before htq's last decision.
pub open spec fn loss_record(i: int) -> (Seq<u32>, Seq<u32>, u32, Seq<BidStep>) {
    if i == 0 {
        (seq![1, 3, 4, 4, 5], seq![2, 5, 5, 5, 6], 0, seq![bs(1, 3, 5), bs(0, 4, 5), bs(1, 5, 5)])
    } else if i == 1 {
        (seq![2, 4, 4, 5, 6], seq![1, 5, 5, 5, 6], 0, seq![bs(1, 4, 5)])
    } else if i == 2 {
        (seq![1, 3, 3, 4, 4], seq![1, 1, 3, 3, 6], 0, seq![bs(1, 4, 3), bs(0, 5, 3), bs(1, 6, 3)])
    } else if i == 3 {
        (
            seq![1, 1, 2, 4, 6],
            seq![1, 1, 1, 5, 6],
            0,
            seq![bs(0, 1, 1), bs(1, 2, 1), bs(0, 2, 2), bs(1, 3, 2), bs(0, 3, 4), bs(1, 4, 4), bs(0, 5, 4), bs(1, 6, 4)],
        )
    } else if i == 4 {
        (
            seq![1, 3, 3, 6, 6],
            seq![1, 1, 3, 4, 6],
            0,
            seq![bs(1, 3, 3), bs(0, 3, 6), bs(1, 4, 6), bs(0, 5, 6), bs(1, 6, 6)],
        )
    } else {
        (
            seq![1, 2, 3, 3, 4],
            seq![3, 3, 3, 4, 5],
            0,
            seq![bs(0, 1, 1), bs(1, 2, 1), bs(0, 2, 2), bs(1, 3, 2), bs(0, 3, 3), bs(1, 4, 3), bs(0, 5, 3), bs(1, 6, 3)],
        )
    }
}

/// All recorded losses (mybot-v3 deployed) vs rafd/flc.
pub fn losses() -> (r: Vec<Fixture>)
    ensures
        r@.len() == 6,
        forall|i: int| 0 <= i < r@.len() ==> (#[trigger] r@[i]).well_formed(),
        forall|i: int|
            0 <= i < 6 ==> ((#[trigger] r@[i]).htq_dice@, r@[i].flc_dice@, r@[i].htq_id, r@[i].history@)
                == loss_record(i),
{
    let mut out: Vec<Fixture> = Vec::new();
    out.push(
        Fixture {
            name: "loss-1",
            htq_dice: vec![1, 3, 4, 4, 5],
            flc_dice: vec![2, 5, 5, 5, 6],
            htq_id: 0,
            history: vec![step(1, 3, 5), step(0, 4, 5), step(1, 5, 5)],
        },
    );
    out.push(
        Fixture {
            name: "loss-2",
            htq_dice: vec![2, 4, 4, 5, 6],
            flc_dice: vec![1, 5, 5, 5, 6],
            htq_id: 0,
            history: vec![step(1, 4, 5)],
        },
    );
    out.push(
        Fixture {
            name: "loss-3",
            htq_dice: vec![1, 3, 3, 4, 4],
            flc_dice: vec![1, 1, 3, 3, 6],
            htq_id: 0,
            history: vec![step(1, 4, 3), step(0, 5, 3), step(1, 6, 3)],
        },
    );
    out.push(
        Fixture {
            name: "loss-4",
            htq_dice: vec![1, 1, 2, 4, 6],
            flc_dice: vec![1, 1, 1, 5, 6],
            htq_id: 0,
            history: vec![
                step(0, 1, 1),
                step(1, 2, 1),
                step(0, 2, 2),
                step(1, 3, 2),
                step(0, 3, 4),
                step(1, 4, 4),
                step(0, 5, 4),
                step(1, 6, 4),
            ],
        },
    );
    out.push(
        Fixture {
            name: "loss-5",
            htq_dice: vec![1, 3, 3, 6, 6],
            flc_dice: vec![1, 1, 3, 4, 6],
            htq_id: 0,
            history: vec![step(1, 3, 3), step(0, 3, 6), step(1, 4, 6), step(0, 5, 6), step(1, 6, 6)],
        },
    );
    out.push(
        Fixture {
            name: "loss-6",
            htq_dice: vec![1, 2, 3, 3, 4],
            flc_dice: vec![3, 3, 3, 4, 5],
            htq_id: 0,
            history: vec![
                step(0, 1, 1),
                step(1, 2, 1),
                step(0, 2, 2),
                step(1, 3, 2),
                step(0, 3, 3),
                step(1, 4, 3),
                step(0, 5, 3),
                step(1, 6, 3),
            ],
        },
    );
    out
}

/// Build the htq Context for a fixture.
pub fn fixture_ctx<'a>(f: &'a Fixture, history: &'a [HistoryEntry]) -> (r: Context<'a>)
    ensures
        r.my_id == f.htq_id,
        r.my_dice@ == f.htq_dice@,
        r.history@ == history@,
        r.dice_per_player == 5,
{
    Context { my_id: f.htq_id, my_dice: f.htq_dice.as_slice(), history, dice_per_player: 5 }
}

/// The history entry that records a step.
pub open spec fn step_entry(s: BidStep) -> HistoryEntry {
    HistoryEntry { player_id: s.player_id, mv: Move::Bid(Bid { quantity: s.q, face: s.f }) }
}

/// The recorded steps as history entries, in order.
pub fn history_from(fixture: &Fixture) -> (r: Vec<HistoryEntry>)
    ensures
        r@.len() == fixture.history@.len(),
        forall|i: int| 0 <= i < r@.len() ==> #[trigger] r@[i] == step_entry(fixture.history@[i]),
{
    let mut out: Vec<HistoryEntry> = Vec::new();
    let mut i: usize = 0;
    while i < fixture.history.len()
        invariant
            i <= fixture.history@.len(),
            out@.len() == i,
            forall|j: int| 0 <= j < i ==> #[trigger] out@[j] == step_entry(fixture.history@[j]),
        decreases fixture.history@.len() - i,
    {
        let s = fixture.history[i];
        out.push(HistoryEntry { player_id: s.player_id, mv: Move::Bid(Bid { quantity: s.q, face: s.f }) });
        i = i + 1;
    }
    out
}

fn last_bid_in(history: &[HistoryEntry]) -> (r: Option<Bid>)
    ensures
        r == spec_last_bid(history@),
{
    crate::dice::last_bid_of(history)
}

/// The last bid before the final entry of `history`.
fn last_bid_before_last(history: &[HistoryEntry]) -> (r: Option<Bid>)
    requires
        history@.len() >= 1,
    ensures
        r == spec_last_bid(history@.drop_last()),
{
    let mut i: usize = history.len() - 1;
    proof {
        assert(history@.take(i as int) =~= history@.drop_last());
    }
    while i > 0
        invariant
            i <= history@.len() - 1,
            spec_last_bid(history@.drop_last()) == spec_last_bid(history@.take(i as int)),
        decreases i,
    {
        proof {
            assert(history@.take(i - 1) =~= history@.take(i as int).drop_last());
        }
        match history[i - 1].mv {
            Move::Bid(b) => {
                return Some(b);
            },
            Move::Challenge => {},
        }
        i = i - 1;
    }
    proof {
        assert(history@.take(0) =~= Seq::<HistoryEntry>::empty());
    }
    None
}

/// Final outcome of a single htq move against the known flc dice.
#[derive(Debug, Clone, Copy, PartialEq, Eq, Structural)]
pub enum Outcome {
    HtqWins,
    HtqLoses,
}

/// The outcome of a challenge on `prev`: the challenger wins exactly when the
/// bid is false over both hands.
pub open spec fn spec_challenge_outcome(f: &Fixture, prev: Bid, challenger_is_htq: bool) -> Outcome {
    let bid_true = spec_count_face(f.htq_dice@ + f.flc_dice@, prev.face) >= prev.quantity;
    if challenger_is_htq == bid_true {
        Outcome::HtqLoses
    } else {
        Outcome::HtqWins
    }
}

/// flc's reply in the copycat model: challenge if its uniform P(prev succeeds) < 0.30
/// or the bid is already at ten, else raise +1 quantity on the same face.
pub open spec fn spec_flc_reply(f: &Fixture, prev: Bid) -> Move {
    let p = spec_p_bid_succeeds(prev.quantity, prev.face, spec_count_face(f.flc_dice@, prev.face), 5);
    if below_pct(p, 30) || prev.quantity == 10 {
        Move::Challenge
    } else {
        Move::Bid(Bid { quantity: (prev.quantity + 1) as u32, face: prev.face })
    }
}

fn challenge_outcome(fixture: &Fixture, prev: Bid, challenger_is_htq: bool) -> (r: Outcome)
    requires
        fixture.well_formed(),
    ensures
        r == spec_challenge_outcome(fixture, prev, challenger_is_htq),
{
    proof {
        lemma_count_face_concat(fixture.htq_dice@, fixture.flc_dice@, prev.face);
        lemma_count_face_bounded(fixture.htq_dice@, prev.face);
        lemma_count_face_bounded(fixture.flc_dice@, prev.face);
    }
    let actual = count_face(fixture.htq_dice.as_slice(), prev.face) + count_face(
        fixture.flc_dice.as_slice(),
        prev.face,
    );
    let bid_true = actual >= prev.quantity;
    if challenger_is_htq == bid_true {
        Outcome::HtqLoses
    } else {
        Outcome::HtqWins
    }
}

fn flc_reply(fixture: &Fixture, prev: Bid) -> (r: Move)
    requires
        fixture.well_formed(),
    ensures
        r == spec_flc_reply(fixture, prev),
{
    proof {
        lemma_count_face_bounded(fixture.flc_dice@, prev.face);
    }
    let flc_count = count_face(fixture.flc_dice.as_slice(), prev.face);
    let p = p_bid_succeeds(prev.quantity, prev.face, flc_count, 5);
    proof {
        // a bid beyond ten needs more dice than the opponent's five
        if prev.quantity > 10 {
            let w = crate::chance::face_weight(prev.face);
            assert(crate::chance::at_least(5, crate::chance::still_needed(prev.quantity, flc_count as nat), w, (6 - w) as nat) == 0);
            crate::chance::lemma_npow_positive(6, 5);
            assert(below_pct(p, 30));
        }
    }
    if p.below_percent(30) || prev.quantity == 10 {
        Move::Challenge
    } else {
        Move::Bid(Bid { quantity: prev.quantity + 1, face: prev.face })
    }
}

fn copy_history(h: &[HistoryEntry]) -> (r: Vec<HistoryEntry>)
    ensures
        r@ == h@,
{
    let mut out: Vec<HistoryEntry> = Vec::new();
    let mut i: usize = 0;
    while i < h.len()
        invariant
            i <= h@.len(),
            out@ == h@.take(i as int),
        decreases h@.len() - i,
    {
        out.push(h[i]);
        proof {
            assert(h@.take(i + 1) =~= h@.take(i as int).push(h@[i as int]));
        }
        i = i + 1;
    }
    proof {
        assert(h@.take(h@.len() as int) =~= h@);
    }
    out
}

/// Whether every recorded bid is well formed (what the players assume).
fn history_valid(history: &[HistoryEntry]) -> (r: bool)
    ensures
        r == history_ok(history@),
{
    let mut i: usize = 0;
    while i < history.len()
        invariant
            i <= history@.len(),
            forall|j: int| 0 <= j < i ==> entry_valid(#[trigger] history@[j]),
        decreases history@.len() - i,
    {
        match history[i].mv {
            Move::Bid(b) => {
                if b.quantity < 1 || b.quantity > 10 || b.face < 1 || b.face > 6 {
                    assert(!entry_valid(history@[i as int]));
                    return false;
                }
            },
            Move::Challenge => {},
        }
        i = i + 1;
    }
    true
}

/// How a replay from history `h`, with `mv` to be played by player `turn`,
/// ends in `r`, htq's later moves being `bots` in order. The move is
/// recorded; a challenge is settled on the last bid before it. After a bid
/// the other side moves: htq as its bot may move, shown its own dice, the
/// history so far and five dice a player (only on a well-formed history: a
/// malformed one ends the replay as a loss), flc by its copycat reply. A
/// history grown past 60 entries ends the replay as a loss.
pub open spec fn replays_to<S: Strategy>(
    f: &Fixture,
    h: Seq<HistoryEntry>,
    mv: Move,
    turn: u32,
    bots: Seq<Move>,
    r: Outcome,
) -> bool
    decreases (if h.len() <= 61 {
        61 - h.len()
    } else {
        0
    }),
{
    let h2 = h.push(HistoryEntry { player_id: turn, mv });
    let next = (1 - turn) as u32;
    match mv {
        Move::Challenge => bots.len() == 0 && match spec_last_bid(h) {
            Some(p) => r == spec_challenge_outcome(f, p, turn == f.htq_id),
            None => false,
        },
        Move::Bid(b) => if next == f.htq_id {
            if !history_ok(h2) {
                bots.len() == 0 && r == Outcome::HtqLoses
            } else {
                &&& bots.len() >= 1
                &&& S::may_pick(f.htq_id, f.htq_dice@, h2, 5, bots[0])
                &&& if h2.len() > 60 {
                    bots.len() == 1 && r == Outcome::HtqLoses
                } else {
                    replays_to::<S>(f, h2, bots[0], next, bots.drop_first(), r)
                }
            }
        } else if h2.len() > 60 {
            bots.len() == 0 && r == Outcome::HtqLoses
        } else {
            replays_to::<S>(f, h2, spec_flc_reply(f, b), next, bots, r)
        },
    }
}

/// Plays from the start of the fixture (after the recorded history) using
/// `bot` for htq and a copycat model for flc. The given `first_move` is
/// htq's first move; everything after is generated. A replay whose history
/// grows past 60 entries is a loss. The bot is only asked to move on a
/// well-formed history: a malformed bid of its own ends the replay as a loss.
pub fn evaluate_move<S: Strategy>(
    fixture: &Fixture,
    history_prefix: &[HistoryEntry],
    first_move: Move,
    bot: &mut S,
) -> (r: Outcome)
    requires
        fixture.well_formed(),
        first_move is Challenge ==> spec_last_bid(history_prefix@) is Some,
    ensures
        // the replay as `replays_to` states it, for the moves the bot made
        exists|bots: Seq<Move>| #[trigger] replays_to::<S>(fixture, history_prefix@, first_move, fixture.htq_id, bots, r),
        // a challenge right away is settled on the last bid of the prefix,
        // without asking the bot anything
        first_move is Challenge ==> r == spec_challenge_outcome(
            fixture,
            spec_last_bid(history_prefix@)->0,
            true,
        ) && *final(bot) == *old(bot),
        // a bid that flc challenges is settled on that bid, without asking the bot
        first_move is Bid && history_prefix@.len() < 60 && spec_flc_reply(fixture, first_move->0) is Challenge
            ==> r == spec_challenge_outcome(fixture, first_move->0, false) && *final(bot) == *old(bot),
        // a bid that takes the history past 60 entries is a loss
        first_move is Bid && history_prefix@.len() >= 60 ==> r == Outcome::HtqLoses && *final(bot) == *old(bot),
{
    let htq_id = fixture.htq_id;
    let mut history: Vec<HistoryEntry> = copy_history(history_prefix);
    let mut mv = first_move;
    let mut turn = htq_id;
    let ghost mut steps: nat = 0;
    let ghost mut used: Seq<Move> = Seq::empty();
    proof {
        assert(history@ =~= history_prefix@);
        assert forall|rem: Seq<Move>, r: Outcome| #[trigger] replays_to::<S>(fixture, history@, mv, turn, rem, r)
            implies replays_to::<S>(fixture, history_prefix@, first_move, htq_id, used + rem, r) by {
            assert(used + rem =~= rem);
        }
    }

    loop
        invariant
            fixture.well_formed(),
            htq_id == fixture.htq_id,
            turn <= 1,
            steps > 0 ==> history@.len() <= 60,
            mv is Challenge ==> spec_last_bid(history@) is Some,
            steps == 0 ==> history@ == history_prefix@ && mv == first_move && turn == htq_id && *bot == *old(bot),
            steps == 1 ==> first_move is Bid && history@ == history_prefix@.push(
                HistoryEntry { player_id: htq_id, mv: first_move },
            ) && mv == spec_flc_reply(fixture, first_move->0) && turn == 1 - htq_id && *bot == *old(bot),
            steps > 0 ==> first_move is Bid,
            steps >= 2 ==> !(spec_flc_reply(fixture, first_move->0) is Challenge),
            steps >= 1 ==> history_prefix@.len() < 60,
            forall|rem: Seq<Move>, r: Outcome| #[trigger] replays_to::<S>(fixture, history@, mv, turn, rem, r)
                ==> replays_to::<S>(fixture, history_prefix@, first_move, htq_id, used + rem, r),
        decreases (if history@.len() <= 61 {
            62 - history@.len()
        } else {
            0
        }),
    {
        // Apply move
        let ghost before = history@;
        let ghost mv0 = mv;
        let ghost turn0 = turn;
        let ghost used0 = used;
        history.push(HistoryEntry { player_id: turn, mv });
        proof {
            assert(history@.drop_last() =~= before);
        }
        match mv {
            Move::Challenge => {
                proof {
                    if steps == 1 {
                        assert(history@.drop_last() == history_prefix@.push(
                            HistoryEntry { player_id: htq_id, mv: first_move },
                        ));
                        assert(spec_last_bid(history@.drop_last()) == Some(first_move->0));
                    }
                }
                let prev = match last_bid_before_last(history.as_slice()) {
                    Some(p) => p,
                    None => {
                        proof {
                            assert(false);
                        }
                        Bid { quantity: 1, face: 2 }
                    },
                };
                let r = challenge_outcome(fixture, prev, turn == htq_id);
                proof {
                    let none = Seq::<Move>::empty();
                    assert(replays_to::<S>(fixture, before, mv0, turn0, none, r));
                    assert(used0 + none =~= used0);
                    assert(replays_to::<S>(fixture, history_prefix@, first_move, htq_id, used0, r));
                }
                return r;
            },
            Move::Bid(_) => {
                turn = 1 - turn;
            },
        }
        proof {
            assert(history@.last() == HistoryEntry { player_id: (1 - turn) as u32, mv });
            if steps == 0 {
                assert(spec_last_bid(history@) == Some(first_move->0));
            }
            if steps == 1 {
                assert(mv is Bid);
            }
            if steps == 0 {
                assert(history@.len() == history_prefix@.len() + 1);
            }
            steps = steps + 1;
        }
        // Next move
        mv = if turn == htq_id {
            if !history_valid(history.as_slice()) {
                proof {
                    let none = Seq::<Move>::empty();
                    assert(replays_to::<S>(fixture, before, mv0, turn0, none, Outcome::HtqLoses));
                    assert(used0 + none =~= used0);
                    assert(replays_to::<S>(fixture, history_prefix@, first_move, htq_id, used0, Outcome::HtqLoses));
                }
                return Outcome::HtqLoses;
            }
            let ctx = Context {
                my_id: htq_id,
                my_dice: fixture.htq_dice.as_slice(),
                history: history.as_slice(),
                dice_per_player: 5,
            };
            let m = bot.pick(&ctx);
            proof {
                used = used0.push(m);
            }
            m
        } else {
            let prev = match last_bid_in(history.as_slice()) {
                Some(p) => p,
                None => {
                    proof {
                        assert(false);
                    }
                    Bid { quantity: 1, face: 2 }
                },
            };
            flc_reply(fixture, prev)
        };
        if history.len() > 60 {
            // a safety bound: bids strictly increase, so a replay never gets here
            proof {
                if turn == htq_id {
                    let one = seq![mv];
                    assert(one.drop_first() =~= Seq::<Move>::empty());
                    assert(replays_to::<S>(fixture, before, mv0, turn0, one, Outcome::HtqLoses));
                    assert(used0 + one =~= used);
                } else {
                    let none = Seq::<Move>::empty();
                    assert(replays_to::<S>(fixture, before, mv0, turn0, none, Outcome::HtqLoses));
                    assert(used0 + none =~= used);
                }
                assert(replays_to::<S>(fixture, history_prefix@, first_move, htq_id, used, Outcome::HtqLoses));
            }
            return Outcome::HtqLoses;
        }
        proof {
            assert forall|rem: Seq<Move>, r: Outcome| #[trigger] replays_to::<S>(fixture, history@, mv, turn, rem, r)
                implies replays_to::<S>(fixture, history_prefix@, first_move, htq_id, used + rem, r) by {
                if turn == htq_id {
                    let all = seq![mv] + rem;
                    assert(all.drop_first() =~= rem);
                    assert(all[0] == mv);
                    assert(replays_to::<S>(fixture, before, mv0, turn0, all, r));
                    assert(used0 + all =~= used + rem);
                } else {
                    assert(replays_to::<S>(fixture, before, mv0, turn0, rem, r));
                    assert(used0 =~= used);
                }
            }
        }
    }
}

} // verus!
