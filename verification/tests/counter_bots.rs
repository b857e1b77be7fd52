use game_arena::counter_bots::{simulate, MyBotV10, MyBotV7, MyBotV8, MyBotV9, SimMove};
use game_arena::dice::{Bid, Context, HistoryEntry, Move, Strategy};
use rand::rngs::StdRng;
use rand::SeedableRng;

fn bid(q: u32, f: u32) -> Move {
    Move::Bid(Bid { quantity: q, face: f })
}

fn e(p: u32, q: u32, f: u32) -> HistoryEntry {
    HistoryEntry { player_id: p, mv: bid(q, f) }
}

fn pick<S: Strategy>(s: &mut S, dice: &[u32], h: &[HistoryEntry]) -> Move {
    let ctx = Context { my_id: 0, my_dice: dice, history: h, dice_per_player: 5 };
    s.pick(&ctx)
}

const D: [u32; 5] = [2, 2, 3, 5, 1];
const D3: [u32; 5] = [3, 3, 3, 1, 2];
const D4: [u32; 5] = [5, 5, 5, 5, 2];
const D2: [u32; 5] = [6, 6, 4, 4, 1];

#[test]
fn copycat_line_outcomes() {
    // the copycat raises to 6 and we hold 3 + 2 < 6
    assert!(!simulate(3, 2, SimMove::Bid(4), 3));
    // one more of the face in its hand and the line holds
    assert!(simulate(3, 3, SimMove::Bid(4), 3));
    // a challenge wins when the bid exceeds both hands
    assert!(simulate(2, 1, SimMove::Challenge, 4));
    assert!(!simulate(2, 2, SimMove::Challenge, 4));
    // past ten nothing can be true
    assert!(!simulate(5, 5, SimMove::Bid(11), 10));
}

#[test]
fn seventh_bot_counters_copycat() {
    let mut b = MyBotV7::new(StdRng::seed_from_u64(7));
    assert_eq!(pick(&mut b, &D, &[]), bid(3, 2));
    assert_eq!(pick(&mut b, &D, &[e(1, 2, 2)]), bid(3, 2));
    assert_eq!(pick(&mut b, &D, &[e(1, 4, 3)]), Move::Challenge);
    assert_eq!(pick(&mut b, &D, &[e(1, 6, 2)]), bid(7, 2));
    assert_eq!(pick(&mut b, &D3, &[e(1, 4, 3), e(0, 5, 3), e(1, 6, 3)]), bid(7, 3));
    assert_eq!(pick(&mut b, &D3, &[e(1, 5, 2)]), Move::Challenge);
    assert_eq!(pick(&mut b, &D2, &[e(1, 3, 5), e(0, 3, 6), e(1, 4, 6)]), bid(5, 6));
}

#[test]
fn eighth_bot_opens_one_higher_on_a_pair() {
    let mut b = MyBotV8::new(StdRng::seed_from_u64(8));
    assert_eq!(pick(&mut b, &D, &[]), bid(3, 2));
    assert_eq!(pick(&mut b, &D3, &[]), bid(4, 3));
    assert_eq!(pick(&mut b, &D4, &[]), bid(4, 5));
    assert_eq!(pick(&mut b, &D, &[e(1, 2, 2)]), bid(2, 3));
    assert_eq!(pick(&mut b, &D, &[e(1, 6, 2)]), Move::Challenge);
    assert_eq!(pick(&mut b, &D4, &[e(1, 3, 3)]), bid(3, 5));
}

#[test]
fn ninth_bot_rides_a_copycat_chain() {
    let mut b = MyBotV9::new(StdRng::seed_from_u64(9));
    assert_eq!(pick(&mut b, &D, &[]), bid(3, 2));
    // the third bot would challenge; with three twos the ninth rides on
    assert_eq!(pick(&mut b, &D, &[e(1, 6, 2)]), bid(7, 2));
    assert_eq!(pick(&mut b, &D3, &[e(1, 7, 3)]), bid(8, 3));
    // not a climb by one: the challenge stands
    assert_eq!(pick(&mut b, &D, &[e(1, 3, 5), e(0, 3, 6), e(1, 4, 6)]), Move::Challenge);
    assert_eq!(pick(&mut b, &D, &[e(1, 4, 3)]), bid(4, 5));
}

#[test]
fn tenth_bot_fingerprints_an_honest_opener() {
    let mut b = MyBotV10::new(StdRng::seed_from_u64(10));
    assert_eq!(pick(&mut b, &D, &[]), bid(1, 1));
    // opening of four: estimate three of the face, and 2 + 3 >= 4
    assert_eq!(pick(&mut b, &D, &[e(1, 4, 3)]), bid(5, 3));
    assert_eq!(pick(&mut b, &D, &[e(1, 3, 3), e(0, 4, 3), e(1, 5, 3)]), bid(6, 3));
    assert_eq!(pick(&mut b, &D, &[e(1, 7, 3)]), bid(8, 3));
    // an opening of three without a raise is not enough
    assert_eq!(pick(&mut b, &D, &[e(1, 3, 3)]), bid(4, 3));
    // four fives in hand: switch face
    assert_eq!(pick(&mut b, &D4, &[e(1, 4, 3)]), bid(5, 5));
    assert_eq!(pick(&mut b, &D4, &[e(1, 4, 3), e(0, 5, 3), e(1, 6, 3)]), bid(7, 5));
    // the estimate does not cover the bid
    assert_eq!(pick(&mut b, &D2, &[e(1, 5, 3)]), Move::Challenge);
}
