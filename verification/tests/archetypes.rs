use game_arena::archetypes::{
    arch_value, bid_outcome_for_arch, detect_copycat, detect_high_opening,
    detect_q2_opening, detect_we_open_raises, expected_c_opp_on_face, HighOpenArch, Response,
};
use game_arena::dice::{Bid, Context, HistoryEntry, Move};

fn e(p: u32, q: u32, f: u32) -> HistoryEntry {
    HistoryEntry { player_id: p, mv: Move::Bid(Bid { quantity: q, face: f }) }
}

fn ctx<'a>(dice: &'a [u32], h: &'a [HistoryEntry]) -> Context<'a> {
    Context { my_id: 0, my_dice: dice, history: h, dice_per_player: 5 }
}

#[test]
fn archetype_openings() {
    assert_eq!(HighOpenArch::AggressiveOpener.opens_q(3), 3);
    assert_eq!(HighOpenArch::BoldOpener.opens_q(3), 4);
    assert_eq!(HighOpenArch::Honest.opens_q(3), 5);
    assert_eq!(HighOpenArch::MinIncrement.opens_q(3), 1);
    assert_eq!(HighOpenArch::Copycat.opens_q(3), 2);
    assert_eq!(HighOpenArch::Calculator.opens_q(3), 1);
    assert_eq!(HighOpenArch::MinimalSafe.opens_q(3), 1);
}

#[test]
fn archetype_challenges() {
    assert!(!HighOpenArch::AggressiveOpener.challenges(3, 4, 0, 5));
    assert!(HighOpenArch::AggressiveOpener.challenges(6, 4, 0, 5));
    assert!(HighOpenArch::BoldOpener.challenges(4, 4, 1, 5));
    assert!(!HighOpenArch::BoldOpener.challenges(3, 4, 1, 5));
    assert!(HighOpenArch::Copycat.challenges(5, 3, 2, 5));
    assert!(!HighOpenArch::Copycat.challenges(4, 3, 2, 5));
}

#[test]
fn archetype_responses() {
    let b = Bid { quantity: 3, face: 4 };
    assert_eq!(HighOpenArch::Calculator.respond(b, 2, 5), Response::Bid(Bid { quantity: 3, face: 5 }));
    assert_eq!(HighOpenArch::Copycat.respond(b, 2, 5), Response::Bid(Bid { quantity: 4, face: 4 }));
    assert_eq!(
        HighOpenArch::MinimalSafe.respond(Bid { quantity: 3, face: 6 }, 3, 5),
        Response::Bid(Bid { quantity: 4, face: 2 })
    );
    assert_eq!(HighOpenArch::MinIncrement.respond(Bid { quantity: 10, face: 2 }, 10, 5), Response::Challenge);
    assert_eq!(HighOpenArch::Copycat.respond(Bid { quantity: 9, face: 3 }, 0, 5), Response::Challenge);
}

#[test]
fn expected_counts() {
    assert_eq!(expected_c_opp_on_face(1, 5), 1);
    assert_eq!(expected_c_opp_on_face(3, 5), 2);
    assert_eq!(expected_c_opp_on_face(4, 24), 8);
    assert_eq!(expected_c_opp_on_face(1, 24), 4);
}

#[test]
fn archetype_values() {
    assert_eq!(arch_value(HighOpenArch::Copycat, 2, 2, 5, 3, 5), 1);
    assert_eq!(arch_value(HighOpenArch::Copycat, 3, 2, 4, 3, 5), 1);
    assert_eq!(arch_value(HighOpenArch::Copycat, 3, 2, 5, 3, 5), 0);
    assert_eq!(bid_outcome_for_arch(HighOpenArch::Copycat, Bid { quantity: 5, face: 3 }, 3, 2, 5), 1);
    assert_eq!(bid_outcome_for_arch(HighOpenArch::Copycat, Bid { quantity: 6, face: 3 }, 3, 2, 5), 0);
}

#[test]
fn opening_detectors() {
    let d = [2, 2, 3, 5, 1];
    let four = [e(1, 4, 3)];
    assert_eq!(detect_high_opening(&ctx(&d, &four)), Some((4, 3)));
    let three = [e(1, 3, 3)];
    assert_eq!(detect_high_opening(&ctx(&d, &three)), None);
    let three_raised = [e(1, 3, 3), e(0, 3, 4), e(1, 4, 4)];
    assert_eq!(detect_high_opening(&ctx(&d, &three_raised)), Some((3, 3)));
    // a raise of one on the face we moved to confirms an opening of three
    let moved = [e(1, 3, 5), e(0, 3, 6), e(1, 4, 6)];
    assert_eq!(detect_high_opening(&ctx(&d, &moved)), Some((3, 5)));
    let broken = [e(1, 4, 3), e(0, 4, 4), e(1, 6, 4)];
    assert_eq!(detect_high_opening(&ctx(&d, &broken)), None);
}

#[test]
fn copycat_detectors() {
    let d = [2, 2, 3, 5, 1];
    let raised = [e(1, 2, 5), e(0, 2, 6), e(1, 3, 6)];
    assert_eq!(detect_copycat(&ctx(&d, &raised)), Some(5));
    assert_eq!(detect_q2_opening(&ctx(&d, &raised)), Some(5));
    let opened = [e(1, 2, 5)];
    assert_eq!(detect_copycat(&ctx(&d, &opened)), None);
    assert_eq!(detect_q2_opening(&ctx(&d, &opened)), Some(5));
    let mine = [e(0, 2, 5), e(1, 3, 5)];
    assert_eq!(detect_copycat(&ctx(&d, &mine)), None);
    assert_eq!(detect_we_open_raises(&ctx(&d, &mine)), Some(5));
    let no_raise = [e(0, 2, 5)];
    assert_eq!(detect_we_open_raises(&ctx(&d, &no_raise)), None);
}
