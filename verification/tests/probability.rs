use game_arena::chance::{binom_at_least, binom_pmf, p_bid_succeeds, p_match, Chance};

fn ratio(c: Chance) -> f64 {
    c.hits as f64 / c.total as f64
}

#[test]
fn certain_when_already_have_enough() {
    assert!((ratio(p_bid_succeeds(2, 4, 2, 5)) - 1.0).abs() < 1e-9);
}

#[test]
fn impossible_when_too_many_needed() {
    // need 6 more from 5 opponent dice
    assert!(ratio(p_bid_succeeds(7, 4, 1, 5)) < 1e-9);
}

#[test]
fn expected_baseline() {
    // No info from my dice: P(>=2 of face 4 in 5 dice with p=1/3)
    let p = ratio(p_bid_succeeds(2, 4, 0, 5));
    // Approx 0.539
    assert!(p > 0.50 && p < 0.56);
}

#[test]
fn baseline_is_exact() {
    // sum_{x=2..=5} C(5,x) 2^(5-x) over 3^5, scaled to sixths: 131/243
    let p = p_bid_succeeds(2, 4, 0, 5);
    assert_eq!(p.total, 7776);
    assert_eq!(p.hits * 243, 131 * 7776);
}

#[test]
fn ones_match_with_one_sixth() {
    let p = p_match(1);
    assert_eq!((p.hits, p.total), (1, 6));
    let q = p_match(5);
    assert_eq!((q.hits, q.total), (2, 6));
    // at least one literal one among two dice: 11/36
    let r = p_bid_succeeds(1, 1, 0, 2);
    assert_eq!((r.hits, r.total), (11, 36));
}

#[test]
fn pmf_weights_sum_to_the_whole() {
    let p = p_match(3);
    for n in 0..=6u32 {
        let mut sum = 0u64;
        let mut total = 0u64;
        for k in 0..=n {
            let c = binom_pmf(n, k, p);
            sum += c.hits;
            total = c.total;
        }
        assert_eq!(sum, total);
        assert_eq!(total, 6u64.pow(n));
    }
}

#[test]
fn pmf_exact_value() {
    // P(exactly 2 of 4 at 2/6) = C(4,2) * 2^2 * 4^2 / 6^4 = 384 / 1296 = 24/81
    let c = binom_pmf(4, 2, p_match(2));
    assert_eq!((c.hits, c.total), (384, 1296));
}

#[test]
fn at_least_nothing_is_certain_and_too_much_is_impossible() {
    let p = p_match(6);
    let all = binom_at_least(5, p, 0);
    assert_eq!(all.hits, all.total);
    let neg = binom_at_least(5, p, -3);
    assert_eq!(neg.hits, neg.total);
    let none = binom_at_least(5, p, 6);
    assert_eq!(none.hits, 0);
}

#[test]
fn below_percent_is_strict() {
    let half = Chance { hits: 3, total: 6 };
    assert!(!half.below_percent(50));
    assert!(half.below_percent(51));
    assert!(!half.below_percent(49));
}
