//! How many of the opponent's dice show a face, given that it chose the face
//! to bid on: tables counted over all 6^5 five-die hands, and the chance of a
//! bid under a blend of "the opponent bid its strongest face" and "no signal".
use crate::chance::{exactly, face_weight, lemma_at_least_bounded, lemma_choose_positive, lemma_npow_positive, npow, Chance};
use crate::counter_sim::hand_die;
use crate::dice::{count_face, lemma_count_face_bounded, spec_count_face};
use vstd::prelude::*;

verus! {

/// The five-die hand at position `i` of the lexicographic enumeration.
pub open spec fn enum_hand(i: int) -> Seq<u32> {
    seq![
        hand_die(i, 0) as u32,
        hand_die(i, 1) as u32,
        hand_die(i, 2) as u32,
        hand_die(i, 3) as u32,
        hand_die(i, 4) as u32,
    ]
}

/// The strongest face among one..=`upto`, wilds counted: the first face with
/// the largest count.
pub open spec fn strongest_face(dice: Seq<u32>, upto: u32) -> u32
    decreases upto,
{
    if upto <= 1 {
        1
    } else {
        let prev = strongest_face(dice, (upto - 1) as u32);
        if spec_count_face(dice, upto) > spec_count_face(dice, prev) {
            upto
        } else {
            prev
        }
    }
}

/// Among the first `n` hands, those whose strongest face is `best` and that
/// hold exactly `k` dice supporting `target`.
pub open spec fn hands_with(n: int, best: u32, target: u32, k: nat) -> nat
    decreases n,
{
    if n <= 0 {
        0
    } else {
        hands_with(n - 1, best, target, k) + if strongest_face(enum_hand(n - 1), 6) == best && spec_count_face(
            enum_hand(n - 1),
            target,
        ) == k {
            1nat
        } else {
            0nat
        }
    }
}

/// At most `n` of the first `n` hands have any given property.
pub(crate) proof fn lemma_hands_with_le(n: int, best: u32, target: u32, k: nat)
    requires
        n >= 0,
    ensures
        hands_with(n, best, target, k) <= n,
    decreases n,
{
    if n > 0 {
        lemma_hands_with_le(n - 1, best, target, k);
    }
}

/// Sum of the entries `k..6` of a six-entry table.
pub open spec fn tail(t: Seq<u64>, k: int) -> nat
    decreases 6 - k,
{
    if k >= 6 {
        0
    } else if k < 0 {
        tail(t, 0)
    } else {
        t[k] as nat + tail(t, k + 1)
    }
}

/// Sum of all six entries.
pub open spec fn table_total(t: Seq<u64>) -> nat {
    tail(t, 0)
}

fn strongest_face_of(dice: &[u32]) -> (r: u32)
    requires
        dice@.len() <= 100,
    ensures
        r == strongest_face(dice@, 6),
        1 <= r <= 6,
{
    let mut best: u32 = 1;
    let mut best_c = count_face(dice, 1);
    let mut f: u32 = 2;
    while f <= 6
        invariant
            2 <= f <= 7,
            dice@.len() <= 100,
            best == strongest_face(dice@, (f - 1) as u32),
            1 <= best < f,
            best_c == spec_count_face(dice@, best),
        decreases 7 - f,
    {
        let c = count_face(dice, f);
        if c > best_c {
            best_c = c;
            best = f;
        }
        f = f + 1;
    }
    best
}

/// The hand at position `i` of the enumeration.
pub fn hand_at(i: u32) -> (r: Vec<u32>)
    requires
        i < 7776,
    ensures
        r@ == enum_hand(i as int),
{
    let mut h: Vec<u32> = Vec::new();
    h.push((i / 1296) % 6 + 1);
    h.push((i / 216) % 6 + 1);
    h.push((i / 36) % 6 + 1);
    h.push((i / 6) % 6 + 1);
    h.push(i % 6 + 1);
    proof {
        assert(h@ =~= enum_hand(i as int));
    }
    h
}

/// Over all hands whose strongest face is `best`, how many hold each count
/// 0..=5 of dice supporting `target`. (With `target == best`, the count of
/// the face the opponent bid on when it bids its strongest face.)
pub fn non_best_face_count_dist(best: u32, target: u32) -> (r: Vec<u64>)
    ensures
        r@.len() == 6,
        forall|k: int| 0 <= k < 6 ==> r@[k] == hands_with(7776, best, target, k as nat),
{
    let mut counts: Vec<u64> = vec![0, 0, 0, 0, 0, 0];
    let mut i: u32 = 0;
    while i < 7776
        invariant
            i <= 7776,
            counts@.len() == 6,
            forall|k: int| 0 <= k < 6 ==> counts@[k] == hands_with(i as int, best, target, k as nat),
            forall|k: int| 0 <= k < 6 ==> counts@[k] <= i,
        decreases 7776 - i,
    {
        let hand = hand_at(i);
        let s = strongest_face_of(hand.as_slice());
        let ghost old_counts = counts@;
        if s == best {
            let k = count_face(hand.as_slice(), target);
            proof {
                lemma_count_face_bounded(hand@, target);
            }
            let c = counts[k as usize];
            counts.set(k as usize, c + 1);
        }
        proof {
            assert forall|k: int| 0 <= k < 6 implies counts@[k] == hands_with(i + 1, best, target, k as nat) by {
                assert(counts@[k] == old_counts[k] + if s == best && spec_count_face(hand@, target) == k {
                    1int
                } else {
                    0int
                });
            }
        }
        i = i + 1;
    }
    counts
}

/// `non_best_face_count_dist` for the face the opponent bid as its strongest.
pub fn best_face_count_dist(face: u32) -> (r: Vec<u64>)
    ensures
        r@.len() == 6,
        forall|k: int| 0 <= k < 6 ==> r@[k] == hands_with(7776, face, face, k as nat),
{
    non_best_face_count_dist(face, face)
}

/// Weights of 0..=5 supporting dice among five fair dice with no signal,
/// over 6^5.
pub fn unconditional_count_dist(face: u32) -> (r: Vec<u64>)
    ensures
        r@.len() == 6,
        forall|k: int|
            0 <= k < 6 ==> r@[k] == exactly(5, k as nat, face_weight(face), (6 - face_weight(face)) as nat),
{
    let p = crate::chance::p_match(face);
    let mut out: Vec<u64> = Vec::new();
    let mut k: u32 = 0;
    proof {
        assert(npow(6, 5) == 7776) by {
            reveal_with_fuel(npow, 6);
        }
    }
    while k < 6
        invariant
            k <= 6,
            p.hits == face_weight(face),
            p.total == 6,
            npow(6, 5) == 7776,
            out@.len() == k,
            forall|j: int|
                0 <= j < k ==> out@[j] == exactly(5, j as nat, face_weight(face), (6 - face_weight(face)) as nat),
        decreases 6 - k,
    {
        let c = crate::chance::binom_pmf(5, k, p);
        out.push(c.hits);
        k = k + 1;
    }
    out
}

// ---------------------------------------------------------------- the tables are never empty

proof fn lemma_hands_with_mono(n: int, m: int, best: u32, target: u32, k: nat)
    requires
        n <= m,
    ensures
        hands_with(n, best, target, k) <= hands_with(m, best, target, k),
    decreases m - n,
{
    if n < m {
        lemma_hands_with_mono(n, m - 1, best, target, k);
    }
}

proof fn lemma_hands_with_hit(j: int, best: u32, target: u32, k: nat)
    requires
        0 <= j < 7776,
        strongest_face(enum_hand(j), 6) == best,
        spec_count_face(enum_hand(j), target) == k,
    ensures
        hands_with(7776, best, target, k) >= 1,
{
    lemma_hands_with_mono(j + 1, 7776, best, target, k);
}

/// A tail of a table is at least each entry in it.
pub(crate) proof fn lemma_tail_ge(t: Seq<u64>, k: int, j: int)
    requires
        0 <= k <= j < 6,
    ensures
        tail(t, k) >= t[j],
    decreases j - k,
{
    if k < j {
        lemma_tail_ge(t, k + 1, j);
    }
}

/// Every face is the strongest face of some hand: five of it.
pub proof fn lemma_best_table_positive(t: Seq<u64>, face: u32)
    requires
        1 <= face <= 6,
        t.len() == 6,
        forall|k: int| 0 <= k < 6 ==> t[k] == hands_with(7776, face, face, k as nat),
    ensures
        table_total(t) >= 1,
{
    let j = (face - 1) * 1555;
    assert(enum_hand(j) =~= seq![face, face, face, face, face]);
    let h = seq![face, face, face, face, face];
    assert(spec_count_face(h, face) == 5) by {
        reveal_with_fuel(spec_count_face, 6);
    }
    assert forall|g: u32| 1 <= g <= 6 implies spec_count_face(h, g) <= 5 by {
        lemma_count_face_bounded(h, g);
    }
    assert(strongest_face(h, 6) == face) by {
        reveal_with_fuel(strongest_face, 7);
        reveal_with_fuel(spec_count_face, 6);
    }
    lemma_hands_with_hit(j, face, face, 5);
    lemma_tail_ge(t, 0, 5);
}

/// The no-signal weights are all positive.
pub proof fn lemma_uncond_positive(t: Seq<u64>, face: u32)
    requires
        t.len() == 6,
        forall|k: int|
            0 <= k < 6 ==> t[k] == exactly(5, k as nat, face_weight(face), (6 - face_weight(face)) as nat),
    ensures
        forall|k: int| 0 <= k < 6 ==> t[k] >= 1,
        table_total(t) >= 1,
{
    let w = face_weight(face);
    assert forall|k: int| 0 <= k < 6 implies t[k] >= 1 by {
        lemma_choose_positive(5, k as nat);
        lemma_npow_positive(w, k as nat);
        lemma_npow_positive((6 - w) as nat, (5 - k) as nat);
        let c = crate::chance::binomial(5, k as nat);
        let x = npow(w, k as nat);
        let y = npow((6 - w) as nat, (5 - k) as nat);
        assert(c * x * y >= 1) by (nonlinear_arith)
            requires
                c >= 1,
                x >= 1,
                y >= 1,
        ;
    }
    lemma_tail_ge(t, 0, 0);
}

} // verus!
