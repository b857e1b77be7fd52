use game_arena::counter_sim::{all_hands, candidate_actions, moves_equal, sim_policy, V11CounterSim};
use game_arena::dice::{Bid, Context, HistoryEntry, Move, Strategy};

fn bid(q: u32, f: u32) -> Move {
    Move::Bid(Bid { quantity: q, face: f })
}

#[test]
fn every_hand_once_in_order() {
    let hands = all_hands();
    assert_eq!(hands.len(), 7776);
    assert_eq!(hands[0], [1, 1, 1, 1, 1]);
    assert_eq!(hands[1], [1, 1, 1, 1, 2]);
    assert_eq!(hands[6], [1, 1, 1, 2, 1]);
    assert_eq!(hands[7775], [6, 6, 6, 6, 6]);
    let mut sorted = hands.clone();
    sorted.sort();
    sorted.dedup();
    assert_eq!(sorted.len(), 7776);
    assert_eq!(sorted, hands);
}

#[test]
fn move_equality() {
    assert!(moves_equal(Move::Challenge, Move::Challenge));
    assert!(moves_equal(bid(3, 4), bid(3, 4)));
    assert!(!moves_equal(bid(3, 4), bid(3, 5)));
    assert!(!moves_equal(bid(3, 4), Move::Challenge));
}

#[test]
fn opening_candidates() {
    let dice = [2, 2, 3, 5, 1];
    let h: Vec<HistoryEntry> = vec![];
    let ctx = Context { my_id: 0, my_dice: &dice, history: &h, dice_per_player: 5 };
    let c = candidate_actions(&ctx, None);
    let mut expected: Vec<Move> = (1..=6).map(|f| bid(1, f)).collect();
    expected.extend((1..=6).map(|f| bid(2, f)));
    expected.push(bid(3, 2));
    expected.push(bid(4, 2));
    assert_eq!(c, expected);
    // ten of the best face: no raise above it
    let tens = [2, 2, 2, 2, 2, 1, 1, 1, 1, 1];
    let ctx2 = Context { my_id: 0, my_dice: &tens, history: &h, dice_per_player: 5 };
    let c2 = candidate_actions(&ctx2, None);
    assert_eq!(c2.len(), 13);
    assert_eq!(c2[12], bid(10, 2));
}

#[test]
fn later_candidates_are_challenge_then_raises() {
    let dice = [2, 2, 3, 5, 1];
    let h: Vec<HistoryEntry> = vec![];
    let ctx = Context { my_id: 0, my_dice: &dice, history: &h, dice_per_player: 5 };
    let c = candidate_actions(&ctx, Some(Bid { quantity: 9, face: 5 }));
    assert_eq!(c, vec![Move::Challenge, bid(9, 6), bid(10, 1), bid(10, 2), bid(10, 3), bid(10, 4), bid(10, 5), bid(10, 6)]);
    let top = candidate_actions(&ctx, Some(Bid { quantity: 10, face: 6 }));
    assert_eq!(top, vec![Move::Challenge]);
}

#[test]
fn simulated_policy() {
    let dice = [2, 2, 3, 5, 1];
    assert_eq!(sim_policy(&dice, Bid { quantity: 2, face: 2 }, 5), bid(2, 3));
    assert_eq!(sim_policy(&dice, Bid { quantity: 3, face: 2 }, 5), bid(3, 3));
    assert_eq!(sim_policy(&dice, Bid { quantity: 5, face: 2 }, 5), Move::Challenge);
    assert_eq!(sim_policy(&dice, Bid { quantity: 4, face: 6 }, 5), Move::Challenge);
}

fn entry(player_id: u32, q: u32, f: u32) -> HistoryEntry {
    HistoryEntry { player_id, mv: bid(q, f) }
}

#[test]
fn counter_falls_back_when_no_hand_explains_the_opening() {
    // the eleventh bot never opens with three of anything
    let dice = [2, 2, 3, 5, 1];
    let h = vec![entry(1, 3, 4)];
    let ctx = Context { my_id: 0, my_dice: &dice, history: &h, dice_per_player: 5 };
    let mut counter = V11CounterSim::new();
    assert_eq!(counter.name(), "v11-counter-sim");
    assert_eq!(counter.pick(&ctx), bid(1, 2));
    // the same round goes on: nothing is reset, still no hand left
    let h2 = vec![entry(1, 1, 6)];
    let ctx2 = Context { my_id: 0, my_dice: &dice, history: &h2, dice_per_player: 5 };
    assert_eq!(counter.pick(&ctx2), bid(1, 2));
}

#[test]
fn counter_reads_a_single_hand_from_the_opening() {
    // only five sixes open with one six; six sixes then wins every play-out
    let dice = [2, 2, 3, 5, 1];
    let h = vec![entry(1, 1, 6)];
    let ctx = Context { my_id: 0, my_dice: &dice, history: &h, dice_per_player: 5 };
    let mut counter = V11CounterSim::new();
    assert_eq!(counter.pick(&ctx), bid(6, 6));
}

#[test]
fn counter_scores_every_raise_over_the_consistent_hands() {
    let dice = [2, 2, 3, 5, 1];
    let h = vec![entry(1, 1, 5)];
    let ctx = Context { my_id: 0, my_dice: &dice, history: &h, dice_per_player: 5 };
    let mut counter = V11CounterSim::new();
    assert_eq!(counter.pick(&ctx), bid(4, 6));
}
