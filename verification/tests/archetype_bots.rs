use game_arena::archetype_bots::{deployed_pick, MyBotV11, MyBotV11Aware, MyBotV11AwareDyn, MyBotV11OpenLow, MyBotV12};
use game_arena::belief_bots::PriorTables;
use game_arena::dice::{Bid, Context, HistoryEntry, Move, Strategy};
use game_arena::face_bots::FaceTables;
use rand::rngs::StdRng;
use rand::SeedableRng;

fn bid(q: u32, f: u32) -> Move {
    Move::Bid(Bid { quantity: q, face: f })
}

fn e(p: u32, q: u32, f: u32) -> HistoryEntry {
    HistoryEntry { player_id: p, mv: bid(q, f) }
}

fn pick<S: Strategy>(s: &mut S, dice: &[u32], h: &[HistoryEntry]) -> Move {
    let ctx = Context { my_id: 0, my_dice: dice, history: h, dice_per_player: 5 };
    s.pick(&ctx)
}

const D: [u32; 5] = [2, 2, 3, 5, 1];
const D2: [u32; 5] = [6, 6, 4, 4, 1];
const D3: [u32; 5] = [3, 3, 3, 1, 2];
const D4: [u32; 5] = [5, 5, 5, 5, 2];
const D5: [u32; 5] = [4, 4, 4, 6, 1];

#[test]
fn eleventh_bot_branches() {
    let mut b = MyBotV11::new(StdRng::seed_from_u64(11));
    // a copycat (opened at two, raised by one): belief over its count
    assert_eq!(pick(&mut b, &D, &[e(1, 2, 3), e(0, 3, 3), e(1, 4, 3)]), bid(4, 4));
    // we opened and the opponent raises by one: belief over every archetype
    assert_eq!(pick(&mut b, &D, &[e(0, 2, 3), e(1, 3, 3)]), bid(3, 4));
    assert_eq!(pick(&mut b, &D, &[e(0, 3, 4), e(1, 4, 4)]), Move::Challenge);
    assert_eq!(pick(&mut b, &D2, &[e(0, 3, 4), e(1, 4, 4)]), bid(4, 5));
    assert_eq!(pick(&mut b, &D3, &[e(0, 3, 4), e(1, 4, 4)]), bid(5, 3));
    // an opening of four on the face: four fives make a sure switch
    assert_eq!(pick(&mut b, &D4, &[e(1, 4, 3)]), bid(5, 5));
    assert_eq!(pick(&mut b, &D, &[e(1, 4, 3)]), bid(5, 3));
    assert_eq!(pick(&mut b, &D2, &[e(1, 5, 3)]), Move::Challenge);
    // an opening of three confirmed by a raise of one: the high-opener belief
    assert_eq!(pick(&mut b, &D, &[e(1, 3, 3), e(0, 4, 3), e(1, 5, 3)]), bid(6, 3));
    // no branch: the tenth bot
    assert_eq!(pick(&mut b, &[6, 6, 6, 1, 1], &[e(1, 1, 6)]), bid(2, 1));
}

#[test]
fn eleventh_bot_opening_low() {
    let mut b = MyBotV11OpenLow::new(StdRng::seed_from_u64(12));
    assert_eq!(pick(&mut b, &D4, &[]), bid(1, 1));
    assert_eq!(pick(&mut b, &D4, &[e(1, 4, 3)]), bid(5, 5));
}

#[test]
fn eleventh_bot_with_sure_switches() {
    let mut b = MyBotV11Aware::new(StdRng::seed_from_u64(13));
    assert_eq!(pick(&mut b, &[6, 6, 6, 1, 1], &[e(1, 2, 2)]), bid(2, 6));
    assert_eq!(pick(&mut b, &[3, 1, 1, 5, 5], &[e(1, 3, 2)]), bid(3, 5));
    assert_eq!(pick(&mut b, &[5, 5, 5, 1, 2], &[e(1, 1, 6)]), bid(2, 5));
    assert_eq!(pick(&mut b, &[4, 4, 1, 1, 6], &[e(1, 2, 2)]), bid(2, 4));
    // a branch still comes first
    assert_eq!(pick(&mut b, &D, &[e(1, 2, 3), e(0, 3, 3), e(1, 4, 3)]), bid(4, 4));
    // no switch reaches 65%: the tenth bot
    assert_eq!(pick(&mut b, &[6, 6, 6, 1, 1], &[e(1, 1, 6)]), bid(2, 1));
}

#[test]
fn eleventh_bot_scoring_every_raise() {
    let mut b = MyBotV11AwareDyn::new(StdRng::seed_from_u64(14));
    assert_eq!(pick(&mut b, &[6, 6, 6, 1, 1], &[e(1, 1, 6)]), bid(4, 6));
    assert_eq!(pick(&mut b, &D, &[e(1, 3, 3)]), bid(3, 4));
    assert_eq!(pick(&mut b, &D, &[e(1, 3, 3), e(0, 4, 3), e(1, 5, 3)]), bid(6, 3));
    assert_eq!(pick(&mut b, &[2, 2, 2, 2, 3], &[e(1, 1, 3)]), bid(1, 4));
    assert_eq!(pick(&mut b, &D4, &[e(1, 4, 3)]), bid(5, 5));
}

fn deployed(dice: &[u32], h: &[HistoryEntry]) -> Move {
    let priors = PriorTables::new();
    let faces = FaceTables::new();
    let ctx = Context { my_id: 0, my_dice: dice, history: h, dice_per_player: 5 };
    deployed_pick(&ctx, &priors, &faces)
}

#[test]
fn deployed_bot_decisions() {
    assert_eq!(deployed(&D, &[]), bid(1, 1));
    // an opening of three with a raise counts as high here
    assert_eq!(deployed(&D4, &[e(1, 3, 3), e(0, 4, 3), e(1, 5, 3)]), bid(6, 5));
    assert_eq!(deployed(&D5, &[e(1, 3, 3), e(0, 4, 3), e(1, 5, 3)]), bid(6, 4));
    assert_eq!(deployed(&D, &[e(1, 2, 5), e(0, 3, 5), e(1, 4, 5)]), bid(5, 5));
    assert_eq!(deployed(&D, &[e(1, 4, 3), e(0, 5, 3), e(1, 6, 3)]), Move::Challenge);
}

#[test]
fn twelfth_bot_randomizes_near_ties() {
    for seed in 0..12 {
        let mut b = MyBotV12::new(StdRng::seed_from_u64(seed));
        match pick(&mut b, &D, &[]) {
            Move::Bid(x) => assert!(x.quantity == 1 && (2..=6).contains(&x.face)),
            Move::Challenge => panic!("opened with a challenge"),
        }
        let m = pick(&mut b, &D, &[e(1, 2, 3), e(0, 3, 3), e(1, 4, 3)]);
        assert!([bid(5, 3), bid(4, 4), bid(4, 6)].contains(&m), "{:?}", m);
        let m = pick(&mut b, &D3, &[e(0, 3, 4), e(1, 4, 4)]);
        assert!(m == Move::Challenge || m == bid(5, 3), "{:?}", m);
        assert_eq!(pick(&mut b, &D4, &[e(1, 4, 3)]), bid(5, 5));
        let m = pick(&mut b, &D, &[e(1, 2, 2)]);
        assert!([bid(2, 3), bid(2, 5), bid(3, 2)].contains(&m), "{:?}", m);
        assert_eq!(pick(&mut b, &D, &[e(1, 4, 3), e(0, 5, 3), e(1, 6, 3)]), Move::Challenge);
    }
}
