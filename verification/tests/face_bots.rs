use game_arena::dice::{Bid, Context, HistoryEntry, Move, Strategy};
use game_arena::face_bots::{MyBotV3, MyBotV4, MyBotV5, MyBotV6};
use game_arena::face_model::{best_face_count_dist, hand_at, non_best_face_count_dist, unconditional_count_dist};
use rand::rngs::StdRng;
use rand::SeedableRng;

fn bid(q: u32, f: u32) -> Move {
    Move::Bid(Bid { quantity: q, face: f })
}

fn e(p: u32, q: u32, f: u32) -> HistoryEntry {
    HistoryEntry { player_id: p, mv: bid(q, f) }
}

fn pick<S: Strategy>(s: &mut S, dice: &[u32], h: &[HistoryEntry]) -> Move {
    let ctx = Context { my_id: 0, my_dice: dice, history: h, dice_per_player: 5 };
    s.pick(&ctx)
}

#[test]
fn best_face_tables() {
    assert_eq!(best_face_count_dist(1), vec![0, 0, 0, 0, 0, 1]);
    assert_eq!(best_face_count_dist(2), vec![0, 120, 1080, 1000, 300, 31]);
    assert_eq!(best_face_count_dist(6), vec![0, 0, 240, 520, 220, 31]);
    assert_eq!(non_best_face_count_dist(2, 3), vec![346, 910, 940, 310, 25, 0]);
    assert_eq!(non_best_face_count_dist(6, 1), vec![421, 445, 130, 10, 5, 0]);
    assert_eq!(non_best_face_count_dist(4, 4), best_face_count_dist(4));
}

#[test]
fn no_signal_tables() {
    assert_eq!(unconditional_count_dist(1), vec![3125, 3125, 1250, 250, 25, 1]);
    assert_eq!(unconditional_count_dist(5), vec![1024, 2560, 2560, 1280, 320, 32]);
    assert_eq!(unconditional_count_dist(3).iter().sum::<u64>(), 7776);
}

#[test]
fn enumerated_hands() {
    assert_eq!(hand_at(0), vec![1, 1, 1, 1, 1]);
    assert_eq!(hand_at(1555), vec![2, 2, 2, 2, 2]);
    assert_eq!(hand_at(7775), vec![6, 6, 6, 6, 6]);
}

const D: [u32; 5] = [2, 2, 3, 5, 1];
const D2: [u32; 5] = [6, 6, 4, 4, 1];

#[test]
fn signal_bots_open() {
    let mut v3 = MyBotV3::new(StdRng::seed_from_u64(3));
    let mut v4 = MyBotV4::new(StdRng::seed_from_u64(4));
    let mut v5 = MyBotV5::new(StdRng::seed_from_u64(5));
    let mut v6 = MyBotV6::new(StdRng::seed_from_u64(6));
    assert_eq!(pick(&mut v3, &D, &[]), bid(1, 1));
    assert_eq!(pick(&mut v4, &D, &[]), bid(1, 1));
    assert_eq!(pick(&mut v5, &D, &[]), bid(3, 2));
    assert_eq!(pick(&mut v6, &D, &[]), bid(3, 2));
    assert_eq!(pick(&mut v5, &D2, &[]), bid(3, 4));
}

#[test]
fn signal_bots_follow_the_signalled_face() {
    let mut v3 = MyBotV3::new(StdRng::seed_from_u64(3));
    let mut v4 = MyBotV4::new(StdRng::seed_from_u64(4));
    let mut v5 = MyBotV5::new(StdRng::seed_from_u64(5));
    let mut v6 = MyBotV6::new(StdRng::seed_from_u64(6));
    let h = [e(1, 4, 3)];
    assert_eq!(pick(&mut v3, &D, &h), bid(4, 5));
    assert_eq!(pick(&mut v4, &D, &h), bid(5, 3));
    assert_eq!(pick(&mut v5, &D, &h), bid(5, 3));
    assert_eq!(pick(&mut v6, &D, &h), bid(5, 3));
    let h2 = [e(1, 1, 2), e(0, 1, 3), e(1, 4, 3)];
    assert_eq!(pick(&mut v3, &D, &h2), bid(4, 5));
    assert_eq!(pick(&mut v4, &D, &h2), bid(5, 3));
    assert_eq!(pick(&mut v5, &D, &h2), bid(5, 2));
    assert_eq!(pick(&mut v6, &D, &h2), bid(5, 2));
}

#[test]
fn signal_bots_challenge() {
    let mut v3 = MyBotV3::new(StdRng::seed_from_u64(3));
    let mut v4 = MyBotV4::new(StdRng::seed_from_u64(4));
    let mut v5 = MyBotV5::new(StdRng::seed_from_u64(5));
    let mut v6 = MyBotV6::new(StdRng::seed_from_u64(6));
    let h = [e(1, 3, 5), e(0, 3, 6), e(1, 4, 6)];
    assert_eq!(pick(&mut v3, &D, &h), Move::Challenge);
    assert_eq!(pick(&mut v4, &D, &h), bid(5, 5));
    assert_eq!(pick(&mut v6, &D, &h), bid(5, 5));
    for s in [&[e(1, 6, 3)][..], &[e(1, 10, 6)][..]] {
        assert_eq!(pick(&mut v3, &D, s), Move::Challenge);
        assert_eq!(pick(&mut v4, &D, s), Move::Challenge);
        assert_eq!(pick(&mut v5, &D, s), Move::Challenge);
        assert_eq!(pick(&mut v6, &D, s), Move::Challenge);
    }
    let h3 = [e(1, 5, 2)];
    assert_eq!(pick(&mut v3, &D2, &h3), Move::Challenge);
    assert_eq!(pick(&mut v4, &D2, &h3), bid(5, 4));
    assert_eq!(pick(&mut v5, &D2, &h3), Move::Challenge);
    assert_eq!(pick(&mut v6, &D2, &h3), Move::Challenge);
    assert_eq!(pick(&mut v3, &D, &h3), bid(6, 2));
}

fn ctx_pick_mixture(dice: &[u32], h: &[HistoryEntry]) -> Move {
    let tables = game_arena::face_bots::FaceTables::new();
    let ctx = Context { my_id: 0, my_dice: dice, history: h, dice_per_player: 5 };
    game_arena::face_bots::mixture_pick(&ctx, &tables)
}

#[test]
fn deployed_fallback_mixture() {
    assert_eq!(ctx_pick_mixture(&D, &[]), bid(1, 1));
    assert_eq!(ctx_pick_mixture(&D, &[e(1, 2, 2)]), bid(2, 3));
    // no face-freedom discount: the sixes of the opponent count fully
    assert_eq!(ctx_pick_mixture(&D, &[e(1, 3, 5), e(0, 3, 6), e(1, 4, 6)]), bid(5, 5));
    assert_eq!(ctx_pick_mixture(&D, &[e(0, 2, 3), e(1, 3, 3)]), bid(4, 3));
    assert_eq!(ctx_pick_mixture(&D, &[e(1, 6, 2)]), Move::Challenge);
    assert_eq!(ctx_pick_mixture(&D2, &[e(1, 5, 2)]), Move::Challenge);
}

fn tiebreak(dice: &[u32], h: &[HistoryEntry], seed: u64) -> Move {
    let tables = game_arena::face_bots::FaceTables::new();
    let mut rng = StdRng::seed_from_u64(seed);
    let ctx = Context { my_id: 0, my_dice: dice, history: h, dice_per_player: 5 };
    game_arena::face_bots::v3_pick_random_tiebreak(&ctx, &tables, &mut rng)
}

#[test]
fn third_bot_rule_with_random_ties() {
    let tied = [bid(2, 3), bid(2, 5), bid(3, 2)];
    for seed in 0..20 {
        let m = tiebreak(&D, &[e(1, 2, 2)], seed);
        assert!(tied.contains(&m), "{:?}", m);
        assert_eq!(tiebreak(&D, &[e(1, 5, 2)], seed), bid(6, 2));
        assert_eq!(tiebreak(&D, &[e(1, 6, 2)], seed), Move::Challenge);
        assert_eq!(tiebreak(&D, &[e(1, 3, 5), e(0, 3, 6), e(1, 4, 6)], seed), Move::Challenge);
        let m2 = tiebreak(&D2, &[e(1, 4, 3)], seed);
        assert!(m2 == bid(4, 4) || m2 == bid(4, 6), "{:?}", m2);
    }
}
