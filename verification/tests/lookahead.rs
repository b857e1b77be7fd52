use game_arena::goof_game::{Context, Round, Strategy};
use game_arena::lookahead::{
    adaptive_v3, bits_to_vec, heuristic, lookahead_pick, nth_set_bit, rank_offset_pick_bm, simulate_outcome,
    trophy_sum, AdaptiveV4, OppPred, StateKey,
};

fn bm(cards: &[u8]) -> u16 {
    cards.iter().fold(0u16, |m, c| m | (1u16 << c))
}

fn r(you: u8, them: u8, trophy: u8) -> Round {
    Round { you, them, trophy }
}

fn base(history: Vec<Round>) -> Context {
    Context {
        your_cards: vec![5, 1, 9, 13, 3],
        their_cards: vec![2, 4, 6, 8, 10],
        trophy_cards: vec![7, 2, 11, 12],
        current_trophy: 4,
        history,
    }
}

#[test]
fn nth_set_bit_counts_from_the_lowest() {
    let m = 0b1010_0110u16;
    assert_eq!(nth_set_bit(m, 0), 1);
    assert_eq!(nth_set_bit(m, 2), 5);
    assert_eq!(nth_set_bit(m, 3), 7);
    assert_eq!(nth_set_bit(m, 4), 16);
    assert_eq!(nth_set_bit(0, 0), 16);
}

#[test]
fn rank_offset_pick_clamps_to_the_hand() {
    let hand = bm(&[5, 1, 9, 13, 3]);
    let in_play = bm(&[7, 2, 11, 12, 4]);
    assert_eq!(rank_offset_pick_bm(hand, in_play, 4, 0), 3);
    assert_eq!(rank_offset_pick_bm(hand, in_play, 4, 1), 5);
    assert_eq!(rank_offset_pick_bm(hand, in_play, 4, -5), 1);
    assert_eq!(rank_offset_pick_bm(hand, in_play, 4, 9), 13);
}

#[test]
fn opponent_model_from_history() {
    assert_eq!(OppPred::from_history(&vec![]), OppPred::RankOffset(1));
    assert_eq!(OppPred::from_history(&vec![r(1, 1, 8), r(2, 2, 5)]), OppPred::AlwaysLow);
    assert_eq!(OppPred::from_history(&vec![r(1, 13, 8), r(2, 12, 5)]), OppPred::AlwaysHigh);
    assert_eq!(OppPred::from_history(&vec![r(1, 8, 6), r(2, 12, 10)]), OppPred::RankOffset(2));
    // rank offsets +3 then +2 disagree: the default
    assert_eq!(OppPred::from_history(&vec![r(7, 9, 6), r(11, 12, 10)]), OppPred::RankOffset(1));
    // one round at the lowest card is not yet a pattern
    assert_eq!(OppPred::from_history(&vec![r(1, 1, 1)]), OppPred::RankOffset(0));
}

#[test]
fn predictions() {
    let hand = bm(&[2, 4, 6, 8, 10]);
    let in_play = bm(&[2, 4, 7, 11, 12]);
    assert_eq!(OppPred::AlwaysLow.predict(hand, in_play, 4), 2);
    assert_eq!(OppPred::AlwaysHigh.predict(hand, in_play, 4), 10);
    assert_eq!(OppPred::RankOffset(1).predict(hand, in_play, 4), 6);
    assert_eq!(OppPred::RankOffset(-3).predict(hand, in_play, 4), 2);
}

#[test]
fn play_outs() {
    let my = bm(&[5, 1, 9, 13, 3]);
    let their = bm(&[2, 4, 6, 8, 10]);
    let t = bm(&[7, 2, 11, 12]);
    let scores: Vec<i32> =
        [1u8, 3, 5, 9, 13].iter().map(|&c| simulate_outcome(c, my, their, t, 4, &OppPred::RankOffset(1), 1)).collect();
    assert_eq!(scores, vec![28, 4, 0, -6, -28]);
    assert_eq!(simulate_outcome(1, my, their, t, 4, &OppPred::AlwaysLow, 1), 4);
    assert_eq!(simulate_outcome(13, my, their, t, 4, &OppPred::AlwaysHigh, 1), -6);
    let scores2: Vec<i32> =
        [1u8, 3, 5, 9, 13].iter().map(|&c| simulate_outcome(c, my, their, t, 4, &OppPred::RankOffset(2), 1)).collect();
    assert_eq!(scores2, vec![10, -14, -14, -6, -6]);
}

#[test]
fn lookahead_takes_the_first_best_opening() {
    let my = bm(&[5, 1, 9, 13, 3]);
    let their = bm(&[2, 4, 6, 8, 10]);
    let t = bm(&[7, 2, 11, 12]);
    assert_eq!(lookahead_pick(my, their, t, 4, &OppPred::RankOffset(1), 1), 1);
    assert_eq!(lookahead_pick(bm(&[3, 7]), bm(&[5, 9]), bm(&[3]), 2, &OppPred::AlwaysLow, 1), 7);
    // all openings equal: the lowest card
    assert_eq!(lookahead_pick(bm(&[1, 2]), bm(&[5, 9]), 0, 2, &OppPred::AlwaysLow, 1), 1);
}

#[test]
fn lookahead_bidder() {
    let c = base(vec![]);
    assert_eq!(adaptive_v3(&c), 1);
    assert_eq!(AdaptiveV4.pick(&c), 1);
    assert_eq!(adaptive_v3(&base(vec![r(1, 1, 8), r(2, 2, 5)])), 3);
    assert_eq!(adaptive_v3(&base(vec![r(1, 8, 6), r(2, 12, 10)])), 1);
    let win = Context { your_cards: vec![10, 11, 12], their_cards: vec![1, 2, 3], trophy_cards: vec![5, 6], current_trophy: 4, history: vec![] };
    assert_eq!(adaptive_v3(&win), 10);
    let lose = Context { your_cards: vec![1, 2, 3], their_cards: vec![10, 11, 12], trophy_cards: vec![5, 6], current_trophy: 4, history: vec![] };
    assert_eq!(adaptive_v3(&lose), 1);
}

#[test]
fn rank_pairing_heuristic() {
    // 1, 3, 5 meet 2, 4, 6 on trophies 7, 8, 9: all lost
    assert_eq!(heuristic(bm(&[1, 3, 5]), bm(&[2, 4, 6]), bm(&[7, 9]), 8), -24);
    assert_eq!(heuristic(bm(&[2, 4, 6]), bm(&[1, 3, 5]), bm(&[7, 9]), 8), 24);
    assert_eq!(heuristic(bm(&[2, 4, 6]), bm(&[2, 4, 6]), bm(&[7, 9]), 8), 0);
    // fewer trophies than cards: only the lowest cards are paired
    assert_eq!(heuristic(bm(&[2, 4, 13]), bm(&[1, 5, 6]), 0, 8), 8);
    // the other hand ran out: our card meets nothing and loses
    assert_eq!(heuristic(bm(&[2, 4]), 0, bm(&[7]), 8), -15);
}

#[test]
fn trophy_values_and_bits() {
    assert_eq!(trophy_sum(bm(&[2, 4, 7])), 13);
    assert_eq!(trophy_sum(0), 0);
    assert_eq!(trophy_sum(bm(&(1..=13).collect::<Vec<u8>>())), 91);
    assert_eq!(bits_to_vec(bm(&[9, 2, 13, 4])), vec![2, 4, 9, 13]);
    assert_eq!(bits_to_vec(0), Vec::<u8>::new());
}

#[test]
fn state_keys_pack_into_disjoint_fields() {
    let k = StateKey { my_hand: 1, their_hand: 2, trophies_remaining: 3, current_trophy: 4, depth_remaining: 5 };
    assert_eq!(k.pack(), 361413882981515265);
    let k2 = StateKey { my_hand: 0x2, their_hand: 0, trophies_remaining: 0, current_trophy: 0, depth_remaining: 0 };
    assert_eq!(k2.pack(), 2);
    let full = StateKey { my_hand: 0xffff, their_hand: 0xffff, trophies_remaining: 0xffff, current_trophy: 0xff, depth_remaining: 0xff };
    assert_eq!(full.pack(), u64::MAX);
}
