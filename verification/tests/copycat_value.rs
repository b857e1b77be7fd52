use game_arena::copycat_value::{apply_belief_updates, copycat_value, optimal_action};
use game_arena::dice::{Bid, Context, HistoryEntry, Move};
use game_arena::face_model::unconditional_count_dist;

fn e(p: u32, q: u32, f: u32) -> HistoryEntry {
    HistoryEntry { player_id: p, mv: Move::Bid(Bid { quantity: q, face: f }) }
}

#[test]
fn riding_a_copycat_values() {
    let w = unconditional_count_dist(3);
    assert_eq!(w, vec![1024, 2560, 2560, 1280, 320, 32]);
    assert_eq!(copycat_value(0, &w, 2), 6400);
    assert_eq!(copycat_value(0, &w, 3), 6144);
    assert_eq!(copycat_value(1, &w, 3), 3840);
    assert_eq!(copycat_value(2, &w, 4), 3584);
    assert_eq!(copycat_value(3, &w, 4), 2880);
    assert_eq!(copycat_value(4, &w, 5), 4192);
    // at ten only the challenge is left, and no count reaches ten
    assert_eq!(copycat_value(4, &w, 10), 7776);
    assert_eq!(copycat_value(4, &w, 11), 7776);
}

#[test]
fn best_action_against_a_copycat() {
    let w = unconditional_count_dist(3);
    assert_eq!(optimal_action(1, &w, 3, 3), (Move::Bid(Bid { quantity: 4, face: 3 }), 3840));
    assert_eq!(optimal_action(0, &w, 3, 3), (Move::Challenge, 6144));
    assert_eq!(optimal_action(4, &w, 5, 3), (Move::Bid(Bid { quantity: 6, face: 3 }), 4192));
    assert_eq!(optimal_action(4, &w, 6, 3), (Move::Challenge, 3584));
    assert_eq!(optimal_action(5, &w, 10, 3), (Move::Challenge, 7744));
}

#[test]
fn raises_reveal_a_floor() {
    let h = [e(1, 2, 3), e(0, 3, 3), e(1, 4, 3)];
    let dice = [3, 3, 1, 2, 5];
    let ctx = Context { my_id: 0, my_dice: &dice, history: &h, dice_per_player: 5 };
    let mut w = unconditional_count_dist(3);
    apply_belief_updates(&mut w, &ctx);
    assert_eq!(w, vec![0, 2560, 2560, 1280, 320, 32]);

    let h2 = [e(0, 4, 5), e(1, 5, 5), e(0, 6, 5), e(1, 7, 5)];
    let ctx2 = Context { my_id: 0, my_dice: &dice, history: &h2, dice_per_player: 5 };
    let mut w2 = unconditional_count_dist(5);
    apply_belief_updates(&mut w2, &ctx2);
    assert_eq!(w2, vec![0, 0, 0, 0, 320, 32]);

    // our own raises reveal nothing of the opponent
    let ctx3 = Context { my_id: 1, my_dice: &dice, history: &h, dice_per_player: 5 };
    let mut w3 = unconditional_count_dist(3);
    apply_belief_updates(&mut w3, &ctx3);
    assert_eq!(w3, vec![1024, 2560, 2560, 1280, 320, 32]);
}
