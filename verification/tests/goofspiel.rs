use game_arena::goof_game::{play_match, play_match_with_deck, Context, Round, Strategy};
use game_arena::goof_players::{
    detect_constant_offset, fallback_move, rank_offset_bid, Adaptive, AdaptiveV2, AdaptiveV3, AlwaysHigh,
    AlwaysLow, Greedy, MatchTrophy, MixedProp, Random, RankMinusOne, RankPlusOne, RankPlusTwo, RankProportional,
};
use rand::rngs::StdRng;
use rand::SeedableRng;

fn r(you: u8, them: u8, trophy: u8) -> Round {
    Round { you, them, trophy }
}

fn ctx_with(their: Vec<u8>, trophies: Vec<u8>, current: u8, history: Vec<Round>) -> Context {
    Context { your_cards: vec![5, 1, 9, 13, 3], their_cards: their, trophy_cards: trophies, current_trophy: current, history }
}

fn base(history: Vec<Round>) -> Context {
    ctx_with(vec![2, 4, 6, 8, 10], vec![7, 2, 11, 12], 4, history)
}

#[test]
fn fixed_rules() {
    let c = base(vec![]);
    assert_eq!(AlwaysLow.pick(&c), 1);
    assert_eq!(AlwaysHigh.pick(&c), 13);
    // 3 and 5 are both one away from 4: the higher wins the tie
    assert_eq!(MatchTrophy.pick(&c), 5);
}

#[test]
fn rank_bidders_follow_the_trophy_rank() {
    // 4 is second lowest of the trophies in play {2, 4, 7, 11, 12}
    let c = base(vec![]);
    assert_eq!(RankProportional.pick(&c), 3);
    assert_eq!(fallback_move(&c), 3);
    assert_eq!(RankPlusOne.pick(&c), 5);
    assert_eq!(RankMinusOne.pick(&c), 1);
    assert_eq!(RankPlusTwo.pick(&c), 9);
    assert_eq!(rank_offset_bid(&c, -7), 1);
    assert_eq!(rank_offset_bid(&c, 40), 13);
}

#[test]
fn rank_plus_one_stays_at_the_top() {
    let c = ctx_with(vec![2, 4, 6, 8, 10], vec![7, 2, 11, 3], 12, vec![]);
    assert_eq!(RankPlusOne.pick(&c), 13);
}

#[test]
fn greedy_gives_up_or_takes_a_decided_round_cheaply() {
    let mut g = Greedy;
    let c = base(vec![]);
    assert_eq!(g.pick(&c), 3);
    let win = Context { your_cards: vec![12, 10, 11], their_cards: vec![1, 2, 3], trophy_cards: vec![5, 6], current_trophy: 4, history: vec![] };
    assert_eq!(g.pick(&win), 10);
    let lose = Context { your_cards: vec![3, 1, 2], their_cards: vec![10, 11, 12], trophy_cards: vec![5, 6], current_trophy: 4, history: vec![] };
    assert_eq!(g.pick(&lose), 1);
}

#[test]
fn mixed_prop_bids_within_its_offsets() {
    let mut m = MixedProp { rng: StdRng::seed_from_u64(5) };
    let c = base(vec![]);
    let mut seen = std::collections::BTreeSet::new();
    for _ in 0..100 {
        let x = m.pick(&c);
        assert!([1, 3, 5, 9].contains(&x));
        seen.insert(x);
    }
    assert_eq!(seen.len(), 4);
}

#[test]
fn random_player_plays_from_its_hand() {
    let mut p = Random { rng: StdRng::seed_from_u64(9) };
    let c = base(vec![]);
    let mut seen = std::collections::BTreeSet::new();
    for _ in 0..100 {
        let x = p.pick(&c);
        assert!(c.your_cards.contains(&x));
        seen.insert(x);
    }
    assert_eq!(seen.len(), 5);
}

#[test]
fn adaptive_bidders_without_a_reading() {
    let c = base(vec![]);
    assert_eq!(Adaptive.pick(&c), 5);
    assert_eq!(AdaptiveV2.pick(&c), 5);
    assert_eq!(AdaptiveV3.pick(&c), 5);
}

#[test]
fn adaptive_bidders_against_an_overbidder() {
    // offsets +3 and +2: mean 2.5, and 4 is below the median trophy 7
    let c = base(vec![r(7, 9, 6), r(11, 12, 10)]);
    assert_eq!(Adaptive.pick(&c), 1);
    assert_eq!(AdaptiveV2.pick(&c), 1);
    assert_eq!(AdaptiveV3.pick(&c), 1);
}

#[test]
fn adaptive_bidders_against_an_underbidder() {
    let c = base(vec![r(1, 3, 6), r(2, 5, 10)]);
    assert_eq!(Adaptive.pick(&c), 5);
    assert_eq!(AdaptiveV2.pick(&c), 5);
    assert_eq!(AdaptiveV3.pick(&c), 5);
}

#[test]
fn second_adaptive_keeps_its_top_card_off_a_tied_top_trophy() {
    let c = ctx_with(vec![2, 4, 6, 8, 13], vec![7, 2, 11, 3], 12, vec![r(7, 9, 6), r(11, 12, 10)]);
    assert_eq!(Adaptive.pick(&c), 13);
    assert_eq!(AdaptiveV2.pick(&c), 1);
}

#[test]
fn third_adaptive_beats_a_constant_offset_cheaply() {
    // offset +1 twice: the opponent is predicted to play 5, which it holds
    let c = ctx_with(vec![2, 5, 6, 8, 10], vec![7, 2, 11, 12], 4, vec![r(1, 7, 6), r(2, 11, 10)]);
    assert_eq!(AdaptiveV3.pick(&c), 9);
    // without a 5 in its hand the prediction is void
    let d = base(vec![r(1, 7, 6), r(2, 11, 10)]);
    assert_eq!(AdaptiveV3.pick(&d), 1);
}

#[test]
fn third_adaptive_punishes_a_thrower() {
    let c = base(vec![r(5, 1, 8), r(6, 3, 2), r(7, 5, 4)]);
    assert_eq!(AdaptiveV3.pick(&c), 3);
}

#[test]
fn constant_offset_detection() {
    assert_eq!(detect_constant_offset(&vec![]), None);
    assert_eq!(detect_constant_offset(&vec![r(1, 7, 6), r(2, 11, 10)]), Some((1, 2, false)));
    assert_eq!(detect_constant_offset(&vec![r(7, 9, 6), r(11, 12, 10)]), None);
    // playing its lowest card on a higher trophy is a throw, not a pattern
    assert_eq!(detect_constant_offset(&vec![r(5, 1, 8)]), None);
    assert_eq!(detect_constant_offset(&vec![r(5, 1, 8), r(6, 3, 2)]), Some((1, 1, true)));
    assert_eq!(detect_constant_offset(&vec![r(5, 1, 8), r(6, 3, 2), r(7, 5, 4)]), Some((1, 2, true)));
}

#[test]
fn deterministic_match_scores() {
    // Always-high against always-low on the ascending deck: every round but
    // the seventh (7 against 7) goes to the higher card.
    let deck: Vec<u8> = (1..=13).collect();
    let res = play_match_with_deck(&mut AlwaysHigh, &mut AlwaysLow, deck);
    assert_eq!(res.a_score, 1 + 2 + 3 + 4 + 5 + 6);
    assert_eq!(res.b_score, 8 + 9 + 10 + 11 + 12 + 13);
    let deck: Vec<u8> = (1..=13).collect();
    let same = play_match_with_deck(&mut RankProportional, &mut RankProportional, deck);
    assert_eq!((same.a_score, same.b_score), (0, 0));
}

struct Recorder {
    trophies: Vec<u8>,
    hands: Vec<usize>,
}

impl Strategy for Recorder {
    fn name(&self) -> &str {
        "recorder"
    }
    fn pick(&mut self, ctx: &Context) -> u8 {
        self.trophies.push(ctx.current_trophy);
        self.hands.push(ctx.your_cards.len());
        *ctx.your_cards.iter().min().unwrap()
    }
}

#[test]
fn a_match_turns_up_every_trophy_once_in_shuffled_order() {
    let mut rng = StdRng::seed_from_u64(42);
    let mut shuffled = false;
    for _ in 0..5 {
        let mut a = Recorder { trophies: vec![], hands: vec![] };
        let mut b = AlwaysHigh;
        let res = play_match(&mut a, &mut b, &mut rng);
        let mut t = a.trophies.clone();
        if t != (1..=13).collect::<Vec<u8>>() {
            shuffled = true;
        }
        t.sort();
        assert_eq!(t, (1..=13).collect::<Vec<u8>>());
        assert_eq!(a.hands, (1..=13).rev().map(|x| x as usize).collect::<Vec<usize>>());
        assert!(res.a_score + res.b_score <= 91);
    }
    assert!(shuffled);
}
