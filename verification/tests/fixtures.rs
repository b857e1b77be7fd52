use game_arena::dice::{Bid, HistoryEntry, Move};
use game_arena::fixtures::{evaluate_move, fixture_ctx, history_from, losses, Outcome};
use game_arena::liar_players::AlwaysChallenge;

#[test]
fn six_recorded_losses() {
    let all = losses();
    assert_eq!(all.len(), 6);
    let names: Vec<&str> = all.iter().map(|f| f.name).collect();
    assert_eq!(names, vec!["loss-1", "loss-2", "loss-3", "loss-4", "loss-5", "loss-6"]);
    for f in &all {
        assert_eq!(f.htq_dice.len(), 5);
        assert_eq!(f.flc_dice.len(), 5);
    }
}

#[test]
fn history_rebuilds_the_bids() {
    let all = losses();
    let h = history_from(&all[0]);
    assert_eq!(h.len(), 3);
    assert_eq!(h[0].player_id, 1);
    assert_eq!(h[0].mv, Move::Bid(Bid { quantity: 3, face: 5 }));
    assert_eq!(h[2].mv, Move::Bid(Bid { quantity: 5, face: 5 }));
    let ctx = fixture_ctx(&all[0], &h);
    assert_eq!(ctx.my_id, 0);
    assert_eq!(ctx.my_dice, &[1, 3, 4, 4, 5]);
    assert_eq!(ctx.dice_per_player, 5);
    assert_eq!(ctx.history.len(), 3);
}

#[test]
fn challenging_a_true_bid_loses() {
    let all = losses();
    for f in &all {
        let h = history_from(f);
        assert_eq!(evaluate_move(f, &h, Move::Challenge, &mut AlwaysChallenge), Outcome::HtqLoses);
    }
}

#[test]
fn replay_against_the_copycat_model() {
    let all = losses();
    let h1 = history_from(&all[0]);
    assert_eq!(evaluate_move(&all[0], &h1, Move::Bid(Bid { quantity: 6, face: 5 }), &mut AlwaysChallenge), Outcome::HtqLoses);
    assert_eq!(evaluate_move(&all[0], &h1, Move::Bid(Bid { quantity: 5, face: 6 }), &mut AlwaysChallenge), Outcome::HtqLoses);
    let h2 = history_from(&all[1]);
    // flc raises (4, 6) to (5, 6), which is false and challenged
    assert_eq!(evaluate_move(&all[1], &h2, Move::Bid(Bid { quantity: 4, face: 6 }), &mut AlwaysChallenge), Outcome::HtqWins);
    assert_eq!(evaluate_move(&all[1], &h2, Move::Bid(Bid { quantity: 5, face: 4 }), &mut AlwaysChallenge), Outcome::HtqLoses);
}

#[test]
fn a_bid_the_copycat_challenges_is_settled_at_once() {
    let all = losses();
    let h3 = history_from(&all[2]);
    // flc holds four threes (wild ones included): seven threes is below 30%
    // for it, so it challenges, and the seven threes are there
    assert_eq!(evaluate_move(&all[2], &h3, Move::Bid(Bid { quantity: 7, face: 3 }), &mut AlwaysChallenge), Outcome::HtqWins);
    let h1 = history_from(&all[0]);
    assert_eq!(h1.len(), 3);
    assert_eq!(all[0].htq_dice, vec![1, 3, 4, 4, 5]);
}

#[test]
fn a_long_prefix_is_still_settled_or_lost() {
    let all = losses();
    let long: Vec<HistoryEntry> =
        (0..61).map(|i| HistoryEntry { player_id: (i % 2) as u32, mv: Move::Bid(Bid { quantity: 1, face: 2 }) }).collect();
    // a challenge is settled on the last bid whatever the length: one two is there
    assert_eq!(evaluate_move(&all[0], &long, Move::Challenge, &mut AlwaysChallenge), Outcome::HtqLoses);
    // a bid past 60 entries loses
    assert_eq!(evaluate_move(&all[0], &long, Move::Bid(Bid { quantity: 2, face: 2 }), &mut AlwaysChallenge), Outcome::HtqLoses);
}
