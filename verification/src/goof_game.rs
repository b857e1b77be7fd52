//! Goofspiel: two players hold the cards 1..=13 and bid one card per round
//! for the trophy card turned up; the higher card takes the trophy's value,
//! a tie discards it.
use crate::rng::shuffle_cards;
use rand::rngs::StdRng;
use vstd::prelude::*;

verus! {

#[derive(Clone, Copy, Debug)]
pub struct Round {
    pub you: u8,
    pub them: u8,
    pub trophy: u8,
}

// Mirrors the JSON shape the cyberleague engine sends to a bot, from one
// player's perspective.
pub struct Context {
    pub your_cards: Vec<u8>,
    pub their_cards: Vec<u8>,
    pub trophy_cards: Vec<u8>,  // remaining unrevealed (excludes current)
    pub current_trophy: u8,
    pub history: Vec<Round>,
}

/// Distinct cards, each from 1 to 13.
pub open spec fn card_list(s: Seq<u8>) -> bool {
    &&& s.no_duplicates()
    &&& forall|i: int| 0 <= i < s.len() ==> 1 <= #[trigger] s[i] <= 13
}

/// A played round names real cards.
pub open spec fn round_ok(r: Round) -> bool {
    1 <= r.you <= 13 && 1 <= r.them <= 13 && 1 <= r.trophy <= 13
}

impl Context {
    /// A position of a game in progress: both hands and the trophies still to
    /// come are sets of cards, the current trophy is not among those to come,
    /// every hand holds one card per trophy left (the current one included),
    /// and the history names real cards.
    pub open spec fn well_formed(&self) -> bool {
        &&& card_list(self.your_cards@)
        &&& card_list(self.their_cards@)
        &&& card_list(self.trophy_cards@)
        &&& 1 <= self.current_trophy <= 13
        &&& !self.trophy_cards@.contains(self.current_trophy)
        &&& self.your_cards@.len() == self.trophy_cards@.len() + 1
        &&& self.their_cards@.len() == self.trophy_cards@.len() + 1
        &&& forall|i: int| 0 <= i < self.history@.len() ==> round_ok(#[trigger] self.history@[i])
    }
}

/// A Goofspiel player: it always plays a card from its hand.
pub trait Strategy {
    fn name(&self) -> &str;

    /// The cards this player may play holding `your_cards` against
    /// `their_cards`, with `trophy_cards` still to come after
    /// `current_trophy` and `history` played: a player whose decision is
    /// known narrows it; by default any card is allowed.
    open spec fn may_pick(
        your_cards: Seq<u8>,
        their_cards: Seq<u8>,
        trophy_cards: Seq<u8>,
        current_trophy: u8,
        history: Seq<Round>,
        r: u8,
    ) -> bool {
        true
    }

    fn pick(&mut self, ctx: &Context) -> (r: u8)
        requires
            ctx.well_formed(),
        ensures
            ctx.your_cards@.contains(r),
            Self::may_pick(ctx.your_cards@, ctx.their_cards@, ctx.trophy_cards@, ctx.current_trophy, ctx.history@, r),
    ;
}

pub struct MatchResult {
    pub a_score: u32,
    pub b_score: u32,
    /// The trophies in the order they were turned up.
    pub deck: Ghost<Seq<u8>>,
    /// The rounds as A saw them.
    pub rounds: Ghost<Seq<Round>>,
    /// A's hand and B's hand at the start of each round.
    pub hands: Ghost<Seq<(Seq<u8>, Seq<u8>)>>,
}

/// Sum of the card values of `s`.
pub open spec fn card_sum(s: Seq<u8>) -> nat
    decreases s.len(),
{
    if s.len() == 0 {
        0
    } else {
        card_sum(s.drop_last()) + s.last() as nat
    }
}

proof fn lemma_card_sum_push(s: Seq<u8>, x: u8)
    ensures
        card_sum(s.push(x)) == card_sum(s) + x,
{
    assert(s.push(x).drop_last() =~= s);
}

/// The hand without card `x`, order kept.
fn without_card(hand: &Vec<u8>, x: u8) -> (r: Vec<u8>)
    requires
        card_list(hand@),
        hand@.contains(x),
    ensures
        card_list(r@),
        r@.len() + 1 == hand@.len(),
        forall|y: u8| r@.contains(y) <==> (hand@.contains(y) && y != x),
{
    let mut out: Vec<u8> = Vec::new();
    let mut i: usize = 0;
    let mut seen: bool = false;
    while i < hand.len()
        invariant
            i <= hand@.len(),
            card_list(hand@),
            card_list(out@),
            hand@.contains(x),
            seen <==> hand@.take(i as int).contains(x),
            out@.len() + if seen {
                1int
            } else {
                0int
            } == i,
            forall|y: u8| out@.contains(y) <==> (hand@.take(i as int).contains(y) && y != x),
        decreases hand@.len() - i,
    {
        let c = hand[i];
        let ghost old_out = out@;
        let ghost prefix = hand@.take(i as int);
        let ghost next = hand@.take(i + 1);
        proof {
            assert(next =~= prefix.push(c));
            assert(next[i as int] == c);
            assert(!prefix.contains(c)) by {
                if prefix.contains(c) {
                    let k = choose|k: int| 0 <= k < prefix.len() && prefix[k] == c;
                    assert(hand@[k] == hand@[i as int]);
                }
            }
        }
        if c == x {
            seen = true;
        } else {
            out.push(c);
        }
        proof {
            assert forall|y: u8| out@.contains(y) <==> (next.contains(y) && y != x) by {
                if next.contains(y) {
                    let k = choose|k: int| 0 <= k < next.len() && next[k] == y;
                    if k < i {
                        assert(prefix[k] == y);
                    }
                }
                if prefix.contains(y) {
                    let k = choose|k: int| 0 <= k < prefix.len() && prefix[k] == y;
                    assert(next[k] == y);
                }
                if c != x {
                    assert(out@ =~= old_out.push(c));
                    if old_out.contains(y) {
                        let k = choose|k: int| 0 <= k < old_out.len() && old_out[k] == y;
                        assert(out@[k] == y);
                    }
                    if out@.contains(y) {
                        let k = choose|k: int| 0 <= k < out@.len() && out@[k] == y;
                        if k < old_out.len() {
                            assert(old_out[k] == y);
                        }
                    }
                    assert(out@[out@.len() - 1] == c);
                }
                assert(next[i as int] == c);
            }
            if c != x {
                assert(out@ =~= old_out.push(c));
                assert(!old_out.contains(c));
                assert forall|a: int, b: int| 0 <= a < out@.len() && 0 <= b < out@.len() && a != b implies out@[a]
                    != out@[b] by {
                    if a == out@.len() - 1 {
                        assert(old_out.contains(out@[b]) || b == a);
                    } else if b == out@.len() - 1 {
                        assert(old_out.contains(out@[a]));
                    }
                }
                assert forall|k: int| 0 <= k < out@.len() implies 1 <= #[trigger] out@[k] <= 13 by {
                    if k < old_out.len() {
                        assert(out@[k] == old_out[k]);
                    }
                }
            } else {
                assert(next[i as int] == x);
                assert(next.contains(x));
            }
        }
        i = i + 1;
        proof {
            assert(hand@.take(i as int) == next);
            assert forall|y: u8| out@.contains(y) <==> (hand@.take(i as int).contains(y) && y != x) by {
                assert(out@.contains(y) <==> (next.contains(y) && y != x));
            }
        }
    }
    proof {
        assert(hand@.take(hand@.len() as int) =~= hand@);
    }
    out
}

/// The cards `deck[from..]`.
fn tail_cards(deck: &Vec<u8>, from: usize) -> (r: Vec<u8>)
    requires
        from <= deck@.len(),
    ensures
        r@ == deck@.subrange(from as int, deck@.len() as int),
{
    let mut out: Vec<u8> = Vec::new();
    let mut i = from;
    while i < deck.len()
        invariant
            from <= i <= deck@.len(),
            out@ == deck@.subrange(from as int, i as int),
        decreases deck@.len() - i,
    {
        out.push(deck[i]);
        proof {
            assert(deck@.subrange(from as int, i + 1) =~= deck@.subrange(from as int, i as int).push(deck@[i as int]));
        }
        i = i + 1;
    }
    out
}

/// The cards 1..=13 in order.
fn full_hand() -> (r: Vec<u8>)
    ensures
        card_list(r@),
        r@.len() == 13,
        forall|i: int| 0 <= i < 13 ==> #[trigger] r@[i] == i + 1,
{
    let mut out: Vec<u8> = Vec::new();
    let mut c: u8 = 1;
    while c <= 13
        invariant
            1 <= c <= 14,
            out@.len() == c - 1,
            forall|i: int| 0 <= i < out@.len() ==> #[trigger] out@[i] == i + 1,
        decreases 14 - c,
    {
        out.push(c);
        c = c + 1;
    }
    out
}

/// The cards one side played, round by round, seen from that side.
pub open spec fn cards_played(h: Seq<Round>) -> Seq<u8> {
    h.map_values(|r: Round| r.you)
}

/// The cards the other side played, round by round.
pub open spec fn cards_faced(h: Seq<Round>) -> Seq<u8> {
    h.map_values(|r: Round| r.them)
}

/// Trophy value taken by the side whose view `h` is: rounds it won outright.
pub open spec fn won_by_you(h: Seq<Round>) -> nat
    decreases h.len(),
{
    if h.len() == 0 {
        0
    } else {
        won_by_you(h.drop_last()) + if h.last().you > h.last().them {
            h.last().trophy as nat
        } else {
            0
        }
    }
}

/// Trophy value taken by the other side.
pub open spec fn won_by_them(h: Seq<Round>) -> nat
    decreases h.len(),
{
    if h.len() == 0 {
        0
    } else {
        won_by_them(h.drop_last()) + if h.last().you < h.last().them {
            h.last().trophy as nat
        } else {
            0
        }
    }
}

/// A finished match on `deck`, seen from A: one round per trophy in deck
/// order, each side played every card once, and the scores are the trophies
/// each side won outright (a tie discards the trophy).
pub open spec fn match_record(deck: Seq<u8>, h: Seq<Round>, a_score: nat, b_score: nat) -> bool {
    &&& h.len() == deck.len()
    &&& forall|k: int| 0 <= k < h.len() ==> (#[trigger] h[k]).trophy == deck[k] && round_ok(h[k])
    &&& cards_played(h).no_duplicates()
    &&& cards_faced(h).no_duplicates()
    &&& a_score == won_by_you(h)
    &&& b_score == won_by_them(h)
}

proof fn lemma_played_push(h: Seq<Round>, x: Round)
    ensures
        cards_played(h.push(x)) == cards_played(h).push(x.you),
        cards_faced(h.push(x)) == cards_faced(h).push(x.them),
        won_by_you(h.push(x)) == won_by_you(h) + if x.you > x.them {
            x.trophy as nat
        } else {
            0
        },
        won_by_them(h.push(x)) == won_by_them(h) + if x.you < x.them {
            x.trophy as nat
        } else {
            0
        },
{
    assert(cards_played(h.push(x)) =~= cards_played(h).push(x.you));
    assert(cards_faced(h.push(x)) =~= cards_faced(h).push(x.them));
    assert(h.push(x).drop_last() =~= h);
}

proof fn lemma_push_keeps_distinct(s: Seq<u8>, v: u8)
    requires
        s.no_duplicates(),
        !s.contains(v),
    ensures
        s.push(v).no_duplicates(),
{
    let t = s.push(v);
    assert forall|a: int, b: int| 0 <= a < t.len() && 0 <= b < t.len() && a != b implies t[a] != t[b] by {
        if a == s.len() as int {
            assert(s[b] == t[b]);
        } else if b == s.len() as int {
            assert(s[a] == t[a]);
        } else {
            assert(s[a] == t[a] && s[b] == t[b]);
        }
    }
}

/// `hand` holds exactly the cards 1..=13 not yet in `played`.
pub open spec fn hand_left(hand: Seq<u8>, played: Seq<u8>) -> bool {
    &&& card_list(hand)
    &&& forall|y: u8| hand.contains(y) <==> (1 <= y <= 13 && !played.contains(y))
}

/// The rounds as the other side sees them.
pub open spec fn mirrored(h: Seq<Round>) -> Seq<Round> {
    h.map_values(|r: Round| Round { you: r.them, them: r.you, trophy: r.trophy })
}

/// Round `k` of a match on `deck`: each side, holding the cards it has not
/// played, was shown the other's hand, the trophies after the current one
/// and the rounds so far (mirrored for B), and played a card it may play there.
pub open spec fn match_round<A: Strategy + ?Sized, B: Strategy + ?Sized>(
    deck: Seq<u8>,
    h: Seq<Round>,
    hands: Seq<(Seq<u8>, Seq<u8>)>,
    k: int,
) -> bool {
    let (ha, hb) = hands[k];
    let rest = deck.subrange(k + 1, deck.len() as int);
    &&& hand_left(ha, cards_played(h.take(k)))
    &&& hand_left(hb, cards_faced(h.take(k)))
    &&& ha.contains(h[k].you)
    &&& hb.contains(h[k].them)
    &&& A::may_pick(ha, hb, rest, deck[k], h.take(k), h[k].you)
    &&& B::may_pick(hb, ha, rest, deck[k], mirrored(h.take(k)), h[k].them)
}

/// A match played out on `r.deck`: the record of `match_record`, and every
/// round as `match_round` says.
pub open spec fn match_played<A: Strategy + ?Sized, B: Strategy + ?Sized>(r: MatchResult) -> bool {
    &&& match_record(r.deck@, r.rounds@, r.a_score as nat, r.b_score as nat)
    &&& r.hands@.len() == r.rounds@.len()
    &&& forall|k: int| 0 <= k < r.rounds@.len() ==> #[trigger] match_round::<A, B>(r.deck@, r.rounds@, r.hands@, k)
}

/// The points of one round: the higher card takes the trophy, a tie discards it.
pub fn round_points(trophy: u8, a_card: u8, b_card: u8) -> (r: (u32, u32))
    ensures
        r == if a_card > b_card {
            (trophy as u32, 0u32)
        } else if a_card < b_card {
            (0u32, trophy as u32)
        } else {
            (0u32, 0u32)
        },
{
    if a_card > b_card {
        (trophy as u32, 0)
    } else if a_card < b_card {
        (0, trophy as u32)
    } else {
        (0, 0)
    }
}

/// Plays one 13-round match on the given trophy deck, A and B each starting
/// with the cards 1..=13. Each round the higher card wins the trophy's value.
pub fn play_match_with_deck<A: Strategy + ?Sized, B: Strategy + ?Sized>(a: &mut A, b: &mut B, deck: Vec<u8>) -> (r:
    MatchResult)
    requires
        card_list(deck@),
        deck@.len() == 13,
    ensures
        r.a_score + r.b_score <= card_sum(deck@),
        r.deck@ == deck@,
        match_played::<A, B>(r),
{
    broadcast use vstd::seq_lib::lemma_seq_contains_after_push;

    let mut a_hand = full_hand();
    let mut b_hand = full_hand();
    proof {
        assert forall|y: u8| a_hand@.contains(y) <==> 1 <= y <= 13 by {
            if 1 <= y <= 13 {
                assert(a_hand@[y - 1] == y);
            }
        }
        assert forall|y: u8| b_hand@.contains(y) <==> 1 <= y <= 13 by {
            if 1 <= y <= 13 {
                assert(b_hand@[y - 1] == y);
            }
        }
    }
    let mut a_score = 0u32;
    let mut b_score = 0u32;
    let mut a_hist: Vec<Round> = Vec::new();
    let mut b_hist: Vec<Round> = Vec::new();
    let ghost mut hands: Seq<(Seq<u8>, Seq<u8>)> = Seq::empty();
    let mut i: usize = 0;
    while i < deck.len()
        invariant
            hands.len() == i,
            forall|k: int| 0 <= k < i ==> #[trigger] match_round::<A, B>(deck@, a_hist@, hands, k),
            b_hist@ == mirrored(a_hist@),
            card_list(deck@),
            deck@.len() == 13,
            i <= 13,
            card_list(a_hand@),
            card_list(b_hand@),
            a_hand@.len() == 13 - i,
            b_hand@.len() == 13 - i,
            a_hist@.len() == i,
            b_hist@.len() == i,
            forall|k: int| 0 <= k < i ==> (#[trigger] a_hist@[k]).trophy == deck@[k] && round_ok(a_hist@[k]),
            forall|k: int|
                0 <= k < i ==> #[trigger] b_hist@[k] == (Round {
                    you: a_hist@[k].them,
                    them: a_hist@[k].you,
                    trophy: a_hist@[k].trophy,
                }),
            cards_played(a_hist@).no_duplicates(),
            cards_faced(a_hist@).no_duplicates(),
            forall|y: u8| a_hand@.contains(y) <==> (1 <= y <= 13 && !cards_played(a_hist@).contains(y)),
            forall|y: u8| b_hand@.contains(y) <==> (1 <= y <= 13 && !cards_faced(a_hist@).contains(y)),
            a_score == won_by_you(a_hist@),
            b_score == won_by_them(a_hist@),
            a_score + b_score <= card_sum(deck@.take(i as int)),
            card_sum(deck@.take(i as int)) <= 13 * i,
        decreases 13 - i,
    {
        let trophy = deck[i];
        let remaining = tail_cards(&deck, i + 1);
        proof {
            assert(remaining@.no_duplicates()) by {
                assert forall|x: int, y: int| 0 <= x < remaining@.len() && 0 <= y < remaining@.len() && x != y implies remaining@[x]
                    != remaining@[y] by {
                    assert(remaining@[x] == deck@[i + 1 + x]);
                    assert(remaining@[y] == deck@[i + 1 + y]);
                }
            }
            assert forall|k: int| 0 <= k < remaining@.len() implies 1 <= #[trigger] remaining@[k] <= 13 by {
                assert(remaining@[k] == deck@[i + 1 + k]);
            }
            assert(!remaining@.contains(trophy)) by {
                if remaining@.contains(trophy) {
                    let k = choose|k: int| 0 <= k < remaining@.len() && remaining@[k] == trophy;
                    assert(deck@[i + 1 + k] == deck@[i as int]);
                }
            }
            assert forall|k: int| 0 <= k < b_hist@.len() implies round_ok(#[trigger] b_hist@[k]) by {
                assert(round_ok(a_hist@[k]));
            }
            assert forall|k: int| 0 <= k < a_hist@.len() implies round_ok(#[trigger] a_hist@[k]) by {
                assert(a_hist@[k].trophy == deck@[k]);
            }
        }
        let a_ctx = Context {
            your_cards: a_hand.clone(),
            their_cards: b_hand.clone(),
            trophy_cards: remaining.clone(),
            current_trophy: trophy,
            history: a_hist.clone(),
        };
        let b_ctx = Context {
            your_cards: b_hand.clone(),
            their_cards: a_hand.clone(),
            trophy_cards: remaining,
            current_trophy: trophy,
            history: b_hist.clone(),
        };
        proof {
            assert(a_ctx.your_cards@ =~= a_hand@);
            assert(a_ctx.their_cards@ =~= b_hand@);
            assert(a_ctx.history@ =~= a_hist@);
            assert(b_ctx.your_cards@ =~= b_hand@);
            assert(b_ctx.their_cards@ =~= a_hand@);
            assert(b_ctx.history@ =~= b_hist@);
        }
        let a_move = a.pick(&a_ctx);
        let b_move = b.pick(&b_ctx);
        let ghost old_a = a_hist@;
        let ghost old_hands = hands;
        proof {
            hands = hands.push((a_hand@, b_hand@));
        }
        let ghost old_hand_a = a_hand@;
        let ghost old_hand_b = b_hand@;
        proof {
            let ka = choose|k: int| 0 <= k < a_hand@.len() && a_hand@[k] == a_move;
            let kb = choose|k: int| 0 <= k < b_hand@.len() && b_hand@[k] == b_move;
            assert(1 <= a_hand@[ka] <= 13);
            assert(1 <= b_hand@[kb] <= 13);
            assert(deck@.take(i + 1) =~= deck@.take(i as int).push(trophy));
            lemma_card_sum_push(deck@.take(i as int), trophy);
            assert(1 <= deck@[i as int] <= 13);
        }
        let (da, db) = round_points(trophy, a_move, b_move);
        a_score = a_score + da;
        b_score = b_score + db;
        let round = Round { you: a_move, them: b_move, trophy };
        a_hist.push(round);
        b_hist.push(Round { you: b_move, them: a_move, trophy });
        a_hand = without_card(&a_hand, a_move);
        b_hand = without_card(&b_hand, b_move);
        proof {
            lemma_played_push(old_a, round);
            assert(a_hist@ == old_a.push(round));
            lemma_push_keeps_distinct(cards_played(old_a), a_move);
            lemma_push_keeps_distinct(cards_faced(old_a), b_move);
            assert forall|k: int| 0 <= k < i + 1 implies (#[trigger] a_hist@[k]).trophy == deck@[k] && round_ok(
                a_hist@[k],
            ) by {
                if k < i {
                    assert(a_hist@[k] == old_a[k]);
                }
            }
            assert forall|y: u8| a_hand@.contains(y) <==> (1 <= y <= 13 && !cards_played(a_hist@).contains(y)) by {
                assert(a_hand@.contains(y) <==> (old_hand_a.contains(y) && y != a_move));
                vstd::seq_lib::lemma_seq_contains_after_push(cards_played(old_a), a_move, y);
                assert(cards_played(a_hist@).contains(y) <==> (cards_played(old_a).contains(y) || y == a_move));
            }
            assert forall|y: u8| b_hand@.contains(y) <==> (1 <= y <= 13 && !cards_faced(a_hist@).contains(y)) by {
                assert(b_hand@.contains(y) <==> (old_hand_b.contains(y) && y != b_move));
                vstd::seq_lib::lemma_seq_contains_after_push(cards_faced(old_a), b_move, y);
                assert(cards_faced(a_hist@).contains(y) <==> (cards_faced(old_a).contains(y) || y == b_move));
            }
            assert(a_hist@.take(i as int) =~= old_a);
            assert(mirrored(old_a) =~= b_hist@.drop_last()) by {
                assert(b_hist@.drop_last() == b_hist@.take(i as int));
            }
            assert forall|k: int| 0 <= k < i + 1 implies #[trigger] match_round::<A, B>(deck@, a_hist@, hands, k) by {
                if k < i {
                    assert(a_hist@.take(k) =~= old_a.take(k));
                    assert(a_hist@[k] == old_a[k]);
                    assert(hands[k] == old_hands[k]);
                    assert(match_round::<A, B>(deck@, old_a, old_hands, k));
                } else {
                    assert(hands[k] == (old_hand_a, old_hand_b));
                    assert(deck@.subrange(k + 1, 13) =~= remaining@);
                }
            }
            assert(b_hist@ =~= mirrored(a_hist@)) by {
                assert forall|k: int| 0 <= k < b_hist@.len() implies b_hist@[k] == mirrored(a_hist@)[k] by {
                    if k < i {
                        assert(b_hist@[k] == mirrored(old_a)[k]);
                    }
                }
            }
        }
        i = i + 1;
    }
    proof {
        assert(deck@.take(13) =~= deck@);
        assert(match_record(deck@, a_hist@, a_score as nat, b_score as nat));
    }
    MatchResult { a_score, b_score, deck: Ghost(deck@), rounds: Ghost(a_hist@), hands: Ghost(hands) }
}

/// Shuffling keeps a set of cards a set of the same cards.
proof fn lemma_shuffle_keeps_cards(orig: Seq<u8>, shuffled: Seq<u8>)
    requires
        card_list(orig),
        shuffled.to_multiset() == orig.to_multiset(),
        shuffled.len() == orig.len(),
    ensures
        card_list(shuffled),
{
    broadcast use vstd::seq_lib::to_multiset_contains;

    orig.lemma_multiset_has_no_duplicates();
    shuffled.lemma_multiset_has_no_duplicates_conv();
    assert forall|i: int| 0 <= i < shuffled.len() implies 1 <= #[trigger] shuffled[i] <= 13 by {
        let x = shuffled[i];
        assert(shuffled.contains(x));
        assert(shuffled.to_multiset().count(x) > 0);
        assert(orig.to_multiset().count(x) > 0);
        assert(orig.contains(x));
        let k = choose|k: int| 0 <= k < orig.len() && orig[k] == x;
    }
}

/// Plays one match with the trophies turned up in a random order: the match
/// is played on some ordering of the cards 1..=13.
pub fn play_match<A: Strategy + ?Sized, B: Strategy + ?Sized>(a: &mut A, b: &mut B, rng: &mut StdRng) -> (r:
    MatchResult)
    ensures
        card_list(r.deck@),
        r.deck@.len() == 13,
        r.a_score + r.b_score <= card_sum(r.deck@),
        match_played::<A, B>(r),
{
    let mut deck = full_hand();
    let ghost orig = deck@;
    shuffle_cards(&mut deck, rng);
    proof {
        lemma_shuffle_keeps_cards(orig, deck@);
    }
    play_match_with_deck(a, b, deck)
}

} // verus!
