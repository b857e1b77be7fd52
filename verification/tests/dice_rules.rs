use game_arena::dice::{count_face, count_literal, last_bid_of, play_round, play_round_with_dice, referee, roll_dice};
use game_arena::dice::{Bid, Context, HistoryEntry, Move, Outcome, Strategy};
use game_arena::liar_players::{AlwaysChallenge, NeverChallenge};
use rand::rngs::StdRng;
use rand::SeedableRng;

#[test]
fn wild_ones_count_for_non_one_face() {
    let dice = vec![1, 1, 3, 4, 5];
    assert_eq!(count_face(&dice, 3), 3); // two 1s + one 3
    assert_eq!(count_face(&dice, 6), 2); // two 1s
    assert_eq!(count_face(&dice, 1), 2); // only literal 1s
}

#[test]
fn bid_ordering() {
    let a = Bid { quantity: 3, face: 4 };
    assert!(Bid { quantity: 3, face: 5 }.beats(a));
    assert!(Bid { quantity: 4, face: 2 }.beats(a));
    assert!(!Bid { quantity: 3, face: 4 }.beats(a));
    assert!(!Bid { quantity: 3, face: 3 }.beats(a));
}

#[test]
fn literal_count_ignores_wilds() {
    let dice = vec![1, 1, 3, 4, 5];
    assert_eq!(count_literal(&dice, 3), 1);
    assert_eq!(count_literal(&dice, 1), 2);
    assert_eq!(count_literal(&dice, 6), 0);
}

#[test]
fn last_bid_skips_challenges() {
    let h = vec![
        HistoryEntry { player_id: 0, mv: Move::Bid(Bid { quantity: 2, face: 3 }) },
        HistoryEntry { player_id: 1, mv: Move::Bid(Bid { quantity: 3, face: 3 }) },
        HistoryEntry { player_id: 0, mv: Move::Challenge },
    ];
    assert_eq!(last_bid_of(&h), Some(Bid { quantity: 3, face: 3 }));
    assert_eq!(last_bid_of(&[]), None);
}

#[test]
fn referee_never_opens_with_a_challenge() {
    assert_eq!(referee(Move::Challenge, None), Move::Bid(Bid { quantity: 1, face: 2 }));
    assert_eq!(
        referee(Move::Bid(Bid { quantity: 11, face: 2 }), None),
        Move::Bid(Bid { quantity: 1, face: 2 })
    );
    assert_eq!(
        referee(Move::Bid(Bid { quantity: 3, face: 6 }), None),
        Move::Bid(Bid { quantity: 3, face: 6 })
    );
}

#[test]
fn referee_turns_a_non_raise_into_a_challenge() {
    let last = Some(Bid { quantity: 3, face: 4 });
    assert_eq!(referee(Move::Bid(Bid { quantity: 3, face: 4 }), last), Move::Challenge);
    assert_eq!(referee(Move::Bid(Bid { quantity: 3, face: 7 }), last), Move::Challenge);
    assert_eq!(
        referee(Move::Bid(Bid { quantity: 4, face: 1 }), last),
        Move::Bid(Bid { quantity: 4, face: 1 })
    );
    assert_eq!(referee(Move::Challenge, last), Move::Challenge);
}

#[test]
fn round_is_settled_on_the_dice() {
    // A opens (1, 6); B challenges. Dice hold three sixes (wilds included): A wins.
    let mut a = AlwaysChallenge;
    let mut b = AlwaysChallenge;
    let r = play_round_with_dice(&mut a, &mut b, vec![6, 1, 2, 3, 4], vec![6, 5, 5, 5, 5]);
    assert_eq!(r.final_bid, Some(Bid { quantity: 1, face: 6 }));
    assert_eq!(r.actual_count, 3);
    assert_eq!(r.challenger_id, 1);
    assert_eq!(r.outcome, Outcome::AWins);
}

#[test]
fn challenger_wins_a_false_bid() {
    // Never-challenge opens (2, best face 3) holding one 3; B challenges; no other 3 or 1.
    let mut a = NeverChallenge;
    let mut b = AlwaysChallenge;
    let r = play_round_with_dice(&mut a, &mut b, vec![3, 2, 4, 5, 6], vec![2, 2, 4, 5, 6]);
    assert_eq!(r.final_bid, Some(Bid { quantity: 2, face: 2 }));
    assert_eq!(r.actual_count, 3);
    assert_eq!(r.outcome, Outcome::AWins);
    let r2 = play_round_with_dice(&mut a, &mut b, vec![3, 3, 4, 5, 6], vec![2, 4, 4, 5, 6]);
    assert_eq!(r2.final_bid, Some(Bid { quantity: 2, face: 3 }));
    assert_eq!(r2.actual_count, 2);
    assert_eq!(r2.outcome, Outcome::AWins);
    let r3 = play_round_with_dice(&mut a, &mut b, vec![3, 2, 4, 5, 6], vec![6, 4, 4, 5, 6]);
    assert_eq!(r3.final_bid, Some(Bid { quantity: 2, face: 2 }));
    assert_eq!(r3.actual_count, 1);
    assert_eq!(r3.outcome, Outcome::BWins);
}

#[test]
fn rolled_dice_are_fair_faces() {
    let mut rng = StdRng::seed_from_u64(7);
    let mut seen = [false; 7];
    for _ in 0..50 {
        let d = roll_dice(&mut rng, 5);
        assert_eq!(d.len(), 5);
        for x in d {
            assert!((1..=6).contains(&x));
            seen[x as usize] = true;
        }
    }
    assert!(seen[1..].iter().all(|s| *s));
}

#[test]
fn random_round_is_consistent() {
    let mut rng = StdRng::seed_from_u64(3);
    let mut a = NeverChallenge;
    let mut b = AlwaysChallenge;
    for _ in 0..20 {
        let r = play_round(&mut a, &mut b, &mut rng);
        let bid = r.final_bid.unwrap();
        let mut all = r.a_dice.clone();
        all.extend_from_slice(&r.b_dice);
        assert_eq!(count_face(&all, bid.face), r.actual_count);
        let bidder_wins = r.actual_count >= bid.quantity;
        let winner = if bidder_wins { 1 - r.challenger_id } else { r.challenger_id };
        assert_eq!(r.outcome, if winner == 0 { Outcome::AWins } else { Outcome::BWins });
    }
}

#[test]
fn strategies_see_their_own_context() {
    struct Probe {
        seen: Vec<(u32, usize)>,
    }
    impl Strategy for Probe {
        fn name(&self) -> &str {
            "probe"
        }
        fn pick(&mut self, ctx: &Context) -> Move {
            self.seen.push((ctx.my_id, ctx.history.len()));
            if ctx.history.len() >= 3 {
                Move::Challenge
            } else {
                let q = ctx.history.len() as u32 + 1;
                Move::Bid(Bid { quantity: q, face: 2 })
            }
        }
    }
    let mut a = Probe { seen: vec![] };
    let mut b = Probe { seen: vec![] };
    let r = play_round_with_dice(&mut a, &mut b, vec![2, 2, 2, 2, 2], vec![3, 3, 3, 3, 3]);
    assert_eq!(a.seen, vec![(0, 0), (0, 2)]);
    assert_eq!(b.seen, vec![(1, 1), (1, 3)]);
    assert_eq!(r.final_bid, Some(Bid { quantity: 3, face: 2 }));
    assert_eq!(r.challenger_id, 1);
    assert_eq!(r.outcome, Outcome::AWins);
}

#[test]
fn two_challengers_settle_the_opening_at_once() {
    let mut rng = StdRng::seed_from_u64(11);
    let mut a = AlwaysChallenge;
    let mut b = AlwaysChallenge;
    for _ in 0..30 {
        let r = play_round(&mut a, &mut b, &mut rng);
        assert_eq!(r.final_bid, Some(Bid { quantity: 1, face: 6 }));
        assert_eq!(r.challenger_id, 1);
        let any = r.a_dice.iter().chain(r.b_dice.iter()).any(|&d| d == 1 || d == 6);
        assert_eq!(r.outcome == Outcome::AWins, any);
    }
}
