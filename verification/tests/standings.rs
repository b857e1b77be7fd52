use game_arena::dice::{first_seat_won, Outcome};
use game_arena::standings::{PairResult, Standing, Table};

fn order(rows: &[Standing]) -> Vec<usize> {
    rows.iter().map(|r| r.idx).collect()
}

#[test]
fn a_fresh_table_has_no_games() {
    let t = Table::new(4);
    assert_eq!(t.players(), 4);
    for i in 0..4 {
        for j in 0..4 {
            assert_eq!(t.get(i, j), PairResult { wins: 0, losses: 0, ties: 0, score_diff: 0 });
        }
    }
    assert!(t.sums_in_range());
    let rows = t.standings();
    assert_eq!(order(&rows), vec![0, 1, 2, 3]);
}

#[test]
fn games_count_on_both_sides() {
    let mut t = Table::new(3);
    assert!(t.can_record_game(0, 1, 50, 41));
    t.record_game(0, 1, 50, 41);
    t.record_game(0, 2, 45, 46);
    t.record_game(1, 2, 45, 45);
    t.record_game(1, 2, 60, 31);
    assert_eq!(t.get(0, 1), PairResult { wins: 1, losses: 0, ties: 0, score_diff: 9 });
    assert_eq!(t.get(1, 0), PairResult { wins: 0, losses: 1, ties: 0, score_diff: -9 });
    assert_eq!(t.get(0, 2), PairResult { wins: 0, losses: 1, ties: 0, score_diff: -1 });
    assert_eq!(t.get(2, 0), PairResult { wins: 1, losses: 0, ties: 0, score_diff: 1 });
    assert_eq!(t.get(1, 2), PairResult { wins: 1, losses: 0, ties: 1, score_diff: 29 });
    assert_eq!(t.get(2, 1), PairResult { wins: 0, losses: 1, ties: 1, score_diff: -29 });
    for i in 0..3 {
        for j in 0..3 {
            let (c, d) = (t.get(i, j), t.get(j, i));
            assert_eq!(c.wins, d.losses);
            assert_eq!(c.ties, d.ties);
            assert_eq!(c.score_diff, -d.score_diff);
        }
    }
}

#[test]
fn equal_wins_are_ordered_by_score_difference() {
    let mut t = Table::new(3);
    t.record_game(0, 1, 50, 41);
    t.record_game(0, 2, 45, 46);
    t.record_game(1, 2, 45, 45);
    t.record_game(1, 2, 60, 31);
    assert!(t.sums_in_range());
    let rows = t.standings();
    assert_eq!(
        rows,
        vec![
            Standing { idx: 1, wins: 1, losses: 1, ties: 1, score_diff: 20 },
            Standing { idx: 0, wins: 1, losses: 1, ties: 0, score_diff: 8 },
            Standing { idx: 2, wins: 1, losses: 1, ties: 1, score_diff: -28 },
        ]
    );
}

#[test]
fn rounds_rank_by_wins_then_by_place() {
    let mut t = Table::new(3);
    assert!(t.can_record_round(0, 1, false));
    t.record_round(0, 1, false);
    t.record_round(0, 2, true);
    t.record_round(1, 2, true);
    assert_eq!(t.get(1, 0), PairResult { wins: 1, losses: 0, ties: 0, score_diff: 0 });
    assert_eq!(t.get(0, 1), PairResult { wins: 0, losses: 1, ties: 0, score_diff: 0 });
    assert_eq!(order(&t.standings()), vec![1, 0, 2]);

    let mut u = Table::new(3);
    u.record_round(0, 1, true);
    u.record_round(1, 2, true);
    u.record_round(0, 2, false);
    let rows = u.standings();
    assert_eq!(order(&rows), vec![0, 1, 2]);
    assert!(rows.iter().all(|r| r.wins == 1 && r.losses == 1));
}

#[test]
fn first_seat_takes_the_winning_side() {
    assert!(first_seat_won(Outcome::AWins, false));
    assert!(!first_seat_won(Outcome::BWins, false));
    assert!(!first_seat_won(Outcome::AWins, true));
    assert!(first_seat_won(Outcome::BWins, true));
}
