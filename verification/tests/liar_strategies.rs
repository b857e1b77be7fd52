use game_arena::dice::{Bid, Context, HistoryEntry, Move, Strategy};
use game_arena::house_bots::{MyBot, MyBotV2};
use game_arena::liar_players::{AlwaysChallenge, Calculator, Copycat, Honest, MinimalSafe, NeverChallenge, Random};
use rand::rngs::StdRng;
use rand::SeedableRng;

const DICE: [u32; 5] = [2, 2, 3, 5, 1];

fn bid(q: u32, f: u32) -> Move {
    Move::Bid(Bid { quantity: q, face: f })
}

fn after(prev: Option<(u32, u32)>) -> Vec<HistoryEntry> {
    match prev {
        None => vec![],
        Some((q, f)) => vec![HistoryEntry { player_id: 1, mv: bid(q, f) }],
    }
}

fn pick_with<S: Strategy>(s: &mut S, prev: Option<(u32, u32)>) -> Move {
    let h = after(prev);
    let ctx = Context { my_id: 0, my_dice: &DICE, history: &h, dice_per_player: 5 };
    s.pick(&ctx)
}

#[test]
fn always_challenge_opens_on_sixes() {
    assert_eq!(pick_with(&mut AlwaysChallenge, None), bid(1, 6));
    assert_eq!(pick_with(&mut AlwaysChallenge, Some((2, 3))), Move::Challenge);
}

#[test]
fn never_challenge_raises_on_its_face() {
    assert_eq!(pick_with(&mut NeverChallenge, None), bid(2, 2));
    assert_eq!(pick_with(&mut NeverChallenge, Some((4, 6))), bid(5, 2));
    assert_eq!(pick_with(&mut NeverChallenge, Some((10, 3))), Move::Challenge);
}

#[test]
fn honest_bids_what_it_expects() {
    assert_eq!(pick_with(&mut Honest, None), bid(5, 2));
    assert_eq!(pick_with(&mut Honest, Some((2, 2))), bid(5, 2));
    assert_eq!(pick_with(&mut Honest, Some((5, 2))), bid(6, 2));
    assert_eq!(pick_with(&mut Honest, Some((6, 3))), Move::Challenge);
}

#[test]
fn calculator_takes_the_most_likely_raise() {
    assert_eq!(pick_with(&mut Calculator, None), bid(1, 1));
    assert_eq!(pick_with(&mut Calculator, Some((2, 2))), bid(2, 3));
    assert_eq!(pick_with(&mut Calculator, Some((4, 3))), bid(4, 5));
    assert_eq!(pick_with(&mut Calculator, Some((5, 2))), Move::Challenge);
}

#[test]
fn minimal_safe_takes_the_least_safe_raise() {
    assert_eq!(pick_with(&mut MinimalSafe, None), bid(1, 1));
    assert_eq!(pick_with(&mut MinimalSafe, Some((2, 2))), bid(2, 3));
    assert_eq!(pick_with(&mut MinimalSafe, Some((4, 3))), Move::Challenge);
}

#[test]
fn copycat_follows_the_face() {
    assert_eq!(pick_with(&mut Copycat, None), bid(2, 2));
    assert_eq!(pick_with(&mut Copycat, Some((4, 3))), bid(5, 3));
    assert_eq!(pick_with(&mut Copycat, Some((6, 3))), Move::Challenge);
}

#[test]
fn house_bot_challenges_below_its_threshold_or_when_raising_is_worse() {
    let mut b = MyBot::new(StdRng::seed_from_u64(1));
    assert_eq!(pick_with(&mut b, None), bid(1, 1));
    assert_eq!(pick_with(&mut b, Some((2, 2))), bid(2, 3));
    assert_eq!(pick_with(&mut b, Some((4, 3))), bid(4, 5));
    assert_eq!(pick_with(&mut b, Some((5, 2))), Move::Challenge);
    assert_eq!(pick_with(&mut b, Some((4, 6))), Move::Challenge);
    assert_eq!(pick_with(&mut b, Some((10, 6))), Move::Challenge);
}

#[test]
fn second_house_bot_moves_its_threshold_against_overbidding() {
    // The opponent's (4, 3) overshoots ten dice' expectation: the threshold
    // rises to 7/12 and the 0.54 chance of (4, 3) is challenged, where the
    // first house bot raises.
    let mut v1 = MyBot::new(StdRng::seed_from_u64(1));
    let mut v2 = MyBotV2::new(StdRng::seed_from_u64(2));
    assert_eq!(pick_with(&mut v1, Some((4, 3))), bid(4, 5));
    assert_eq!(pick_with(&mut v2, Some((4, 3))), Move::Challenge);
    assert_eq!(pick_with(&mut v2, Some((2, 2))), bid(2, 3));
    assert_eq!(pick_with(&mut v2, None), bid(1, 1));
}

#[test]
fn random_player_mixes_challenges_and_raises() {
    let mut r = Random { rng: StdRng::seed_from_u64(11) };
    let mut challenges = 0;
    let mut bids = std::collections::BTreeSet::new();
    for _ in 0..200 {
        match pick_with(&mut r, Some((3, 4))) {
            Move::Challenge => challenges += 1,
            Move::Bid(b) => {
                assert!(b.beats(Bid { quantity: 3, face: 4 }) && b.quantity <= 10);
                bids.insert((b.quantity, b.face));
            }
        }
    }
    assert!(challenges > 20 && challenges < 90);
    assert!(bids.len() > 10);
    // with nothing to challenge, it always bids
    for _ in 0..20 {
        assert!(matches!(pick_with(&mut r, None), Move::Bid(_)));
    }
}
