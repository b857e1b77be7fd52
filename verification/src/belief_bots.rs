//! Beliefs over (archetype, count) of the opponent's dice on a face, and the
//! expected win of each action under them. A belief is a row of six weights
//! (counts 0..=5) per archetype; an expected win is an exact fraction (a
//! `Chance`): the weight of the outcomes we win over the weight of all.
use crate::archetypes::{bid_outcome_for_arch, spec_bid_outcome_for_arch, HighOpenArch};
use crate::chance::Chance;
use crate::dice::{count_face, lemma_count_face_bounded, spec_count_face, valid_bid, Bid, Context, HistoryEntry, Move};
use crate::face_bots::{lemma_uc_entries, ratio_lt, uc_table, FaceTables};
use crate::face_model::{hands_with, lemma_hands_with_le, non_best_face_count_dist};
use vstd::prelude::*;

verus! {

// ---------------------------------------------------------------- archetype sets and tables

/// Which archetypes a belief ranges over.
#[derive(Clone, Copy, PartialEq, Eq, Debug, Structural)]
pub enum ArchSet {
    /// The openers that open high: aggressive, bold and honest.
    HighOpen,
    /// Every archetype that may answer our opening.
    WeOpen,
    /// The copycat alone.
    CopycatOnly,
}

pub open spec fn archs(s: ArchSet) -> Seq<HighOpenArch> {
    match s {
        ArchSet::HighOpen => seq![HighOpenArch::AggressiveOpener, HighOpenArch::BoldOpener, HighOpenArch::Honest],
        ArchSet::WeOpen => seq![
            HighOpenArch::AggressiveOpener,
            HighOpenArch::BoldOpener,
            HighOpenArch::Honest,
            HighOpenArch::MinIncrement,
            HighOpenArch::Copycat,
            HighOpenArch::Calculator,
            HighOpenArch::MinimalSafe,
        ],
        ArchSet::CopycatOnly => seq![HighOpenArch::Copycat],
    }
}

/// The archetypes of a set, in order.
pub fn arch_list(s: ArchSet) -> (r: Vec<HighOpenArch>)
    ensures
        r@ == archs(s),
        1 <= r@.len() <= 7,
{
    match s {
        ArchSet::HighOpen => {
            let r = vec![HighOpenArch::AggressiveOpener, HighOpenArch::BoldOpener, HighOpenArch::Honest];
            assert(r@ =~= archs(s));
            r
        },
        ArchSet::WeOpen => {
            let r = vec![
                HighOpenArch::AggressiveOpener,
                HighOpenArch::BoldOpener,
                HighOpenArch::Honest,
                HighOpenArch::MinIncrement,
                HighOpenArch::Copycat,
                HighOpenArch::Calculator,
                HighOpenArch::MinimalSafe,
            ];
            assert(r@ =~= archs(s));
            r
        },
        ArchSet::CopycatOnly => {
            let r = vec![HighOpenArch::Copycat];
            assert(r@ =~= archs(s));
            r
        },
    }
}

/// Counts of the hands whose strongest face is `best`, by how many dice
/// support `target`.
pub open spec fn nb_table(best: u32, target: u32) -> Seq<u64> {
    Seq::new(6, |k: int| hands_with(7776, best, target, k as nat) as u64)
}

/// The count tables for every pair (best face, target face), index 0 unused.
pub struct PriorTables {
    nb: Vec<Vec<Vec<u64>>>,
}

impl PriorTables {
    #[verifier::type_invariant]
    spec fn tables_hold(self) -> bool {
        &&& self.nb@.len() == 7
        &&& forall|b: int| 1 <= b <= 6 ==> (#[trigger] self.nb@[b])@.len() == 7
        &&& forall|b: int, t: int|
            1 <= b <= 6 && 1 <= t <= 6 ==> (#[trigger] self.nb@[b]@[t])@ == nb_table(b as u32, t as u32)
    }

    /// The table held for the pair (best face `best`, target face `target`).
    pub closed spec fn counts(self, best: int, target: int) -> Seq<u64> {
        self.nb@[best]@[target]@
    }

    /// Counts the tables over all hands.
    pub fn new() -> (r: Self)
        ensures
            forall|b: int, t: int|
                1 <= b <= 6 && 1 <= t <= 6 ==> #[trigger] r.counts(b, t) == nb_table(b as u32, t as u32),
    {
        let mut nb: Vec<Vec<Vec<u64>>> = Vec::new();
        nb.push(Vec::new());
        let mut b: u32 = 1;
        while b <= 6
            invariant
                1 <= b <= 7,
                nb@.len() == b,
                forall|x: int| 1 <= x < b ==> (#[trigger] nb@[x])@.len() == 7,
                forall|x: int, t: int|
                    1 <= x < b && 1 <= t <= 6 ==> (#[trigger] nb@[x]@[t])@ == nb_table(x as u32, t as u32),
            decreases 7 - b,
        {
            let mut row: Vec<Vec<u64>> = Vec::new();
            row.push(Vec::new());
            let mut t: u32 = 1;
            while t <= 6
                invariant
                    1 <= t <= 7,
                    1 <= b <= 6,
                    row@.len() == t,
                    forall|y: int| 1 <= y < t ==> (#[trigger] row@[y])@ == nb_table(b, y as u32),
                decreases 7 - t,
            {
                let d = non_best_face_count_dist(b, t);
                assert(d@ =~= nb_table(b, t));
                row.push(d);
                t = t + 1;
            }
            nb.push(row);
            b = b + 1;
        }
        PriorTables { nb }
    }

    /// The counts of `target` among hands whose strongest face is `best`.
    pub fn non_best(&self, best: u32, target: u32) -> (r: &Vec<u64>)
        requires
            1 <= best <= 6,
            1 <= target <= 6,
        ensures
            r@ == nb_table(best, target),
    {
        proof {
            use_type_invariant(self);
            assert(self.nb@[best as int]@[target as int]@ == nb_table(best, target));
        }
        &self.nb[best as usize][target as usize]
    }
}

/// Every entry of a table is at most the number of hands.
pub open spec fn small_row(row: Seq<u64>) -> bool {
    row.len() == 6 && forall|k: int| 0 <= k < 6 ==> row[k] <= 7776
}

pub(crate) proof fn lemma_nb_small(best: u32, target: u32)
    ensures
        small_row(nb_table(best, target)),
{
    assert forall|k: int| 0 <= k < 6 implies nb_table(best, target)[k] <= 7776 by {
        lemma_hands_with_le(7776, best, target, k as nat);
    }
}

pub(crate) proof fn lemma_uc_small(face: u32)
    ensures
        small_row(uc_table(face)),
{
    assert forall|k: int| 0 <= k < 6 implies uc_table(face)[k] <= 7776 by {
        lemma_uc_entries(face, k);
    }
}

// ---------------------------------------------------------------- beliefs

/// Among the first `n` entries there is a bid of ours that `arch`, holding
/// `c`, would have challenged.
pub open spec fn folded_by(h: Seq<HistoryEntry>, me: u32, arch: HighOpenArch, c: u32, opp: u32, n: int) -> bool
    decreases n,
{
    if n <= 0 {
        false
    } else {
        folded_by(h, me, arch, c, opp, n - 1) || (h[n - 1].player_id == me && match h[n - 1].mv {
            Move::Bid(b) => arch.spec_challenges(b.quantity, b.face, c, opp),
            Move::Challenge => false,
        })
    }
}

/// The weight of `arch` holding `c`: the base weight of `c` when the
/// archetype would have opened at `open_q` (when one is given) and would have
/// let every bid of ours stand; else none.
pub open spec fn belief_weight(
    h: Seq<HistoryEntry>,
    me: u32,
    opp: u32,
    arch: HighOpenArch,
    base: Seq<u64>,
    open_q: Option<u32>,
    c: int,
) -> u64 {
    let opens = match open_q {
        Some(q) => arch.spec_opens_q(c as u32) == q as int,
        None => true,
    };
    if opens && !folded_by(h, me, arch, c as u32, opp, h.len() as int) {
        base[c]
    } else {
        0
    }
}

/// The belief rows of a set of archetypes.
pub open spec fn belief_of(
    h: Seq<HistoryEntry>,
    me: u32,
    opp: u32,
    set: ArchSet,
    base: Seq<u64>,
    open_q: Option<u32>,
) -> Seq<Seq<u64>> {
    Seq::new(
        archs(set).len(),
        |a: int| Seq::new(6, |c: int| belief_weight(h, me, opp, archs(set)[a], base, open_q, c)),
    )
}

/// The rows of a belief held as vectors.
pub open spec fn rows(b: Seq<Vec<u64>>) -> Seq<Seq<u64>> {
    Seq::new(b.len(), |a: int| b[a]@)
}

/// The first `m` rows of a belief, one to seven of them, are rows of six
/// small weights.
pub open spec fn small_rows(w: Seq<Seq<u64>>, m: int) -> bool {
    1 <= m <= 7 && m <= w.len() && forall|a: int| 0 <= a < m ==> small_row(#[trigger] w[a])
}

/// A belief of at most seven rows of six small weights.
pub open spec fn small_belief(w: Seq<Seq<u64>>) -> bool {
    small_rows(w, w.len() as int)
}

fn folded(ctx: &Context, arch: HighOpenArch, c: u32) -> (r: bool)
    requires
        ctx.well_formed(),
        c <= 5,
    ensures
        r == folded_by(ctx.history@, ctx.my_id, arch, c, ctx.dice_per_player, ctx.history@.len() as int),
{
    let h = ctx.history;
    let mut found = false;
    let mut i: usize = 0;
    while i < h.len()
        invariant
            i <= h@.len(),
            h@ == ctx.history@,
            ctx.well_formed(),
            c <= 5,
            found == folded_by(h@, ctx.my_id, arch, c, ctx.dice_per_player, i as int),
        decreases h@.len() - i,
    {
        if h[i].player_id == ctx.my_id {
            if let Move::Bid(b) = h[i].mv {
                if arch.challenges(b.quantity, b.face, c, ctx.dice_per_player) {
                    found = true;
                }
            }
        }
        i = i + 1;
    }
    found
}

/// The belief over a set of archetypes: each row the base weights, kept
/// where the archetype opens at `open_q` (when given) and would have let
/// every bid of ours stand.
pub fn build_belief(ctx: &Context, set: ArchSet, base: &Vec<u64>, open_q: Option<u32>) -> (r: Vec<Vec<u64>>)
    requires
        ctx.well_formed(),
        small_row(base@),
    ensures
        rows(r@) == belief_of(ctx.history@, ctx.my_id, ctx.dice_per_player, set, base@, open_q),
        small_belief(rows(r@)),
{
    let list = arch_list(set);
    let ghost target = belief_of(ctx.history@, ctx.my_id, ctx.dice_per_player, set, base@, open_q);
    let mut out: Vec<Vec<u64>> = Vec::new();
    let mut a: usize = 0;
    while a < list.len()
        invariant
            a <= list@.len(),
            list@ == archs(set),
            1 <= list@.len() <= 7,
            ctx.well_formed(),
            small_row(base@),
            target == belief_of(ctx.history@, ctx.my_id, ctx.dice_per_player, set, base@, open_q),
            out@.len() == a,
            forall|x: int| 0 <= x < a ==> (#[trigger] out@[x])@ == target[x],
            forall|x: int| 0 <= x < a ==> small_row(#[trigger] out@[x]@),
        decreases list@.len() - a,
    {
        let arch = list[a];
        let mut row: Vec<u64> = Vec::new();
        let mut c: u32 = 0;
        while c < 6
            invariant
                c <= 6,
                a < list@.len(),
                arch == archs(set)[a as int],
                ctx.well_formed(),
                small_row(base@),
                row@.len() == c,
                forall|k: int|
                    0 <= k < c ==> #[trigger] row@[k] == belief_weight(
                        ctx.history@,
                        ctx.my_id,
                        ctx.dice_per_player,
                        arch,
                        base@,
                        open_q,
                        k,
                    ),
                forall|k: int| 0 <= k < c ==> #[trigger] row@[k] <= 7776,
            decreases 6 - c,
        {
            let opens = match open_q {
                Some(q) => arch.opens_q(c) == q,
                None => true,
            };
            let w = if opens && !folded(ctx, arch, c) {
                base[c as usize]
            } else {
                0
            };
            row.push(w);
            c = c + 1;
        }
        proof {
            assert(row@ =~= target[a as int]);
        }
        out.push(row);
        a = a + 1;
    }
    proof {
        assert(rows(out@) =~= target);
    }
    out
}

// ---------------------------------------------------------------- expected wins

/// Total weight of the first `n` entries.
pub open spec fn row_total(row: Seq<u64>, n: int) -> nat
    decreases n,
{
    if n <= 0 {
        0
    } else {
        row_total(row, n - 1) + row[n - 1] as nat
    }
}

/// Weight of the counts `c < n` against which a challenge of a bid of `q` wins.
pub open spec fn row_challenge(row: Seq<u64>, c_me: u32, q: u32, n: int) -> nat
    decreases n,
{
    if n <= 0 {
        0
    } else {
        row_challenge(row, c_me, q, n - 1) + if c_me + (n - 1) < q {
            row[n - 1] as nat
        } else {
            0nat
        }
    }
}

/// Weight of the counts `c < n` against which making `bid` wins.
pub open spec fn row_outcome(row: Seq<u64>, arch: HighOpenArch, bid: Bid, c_me: u32, opp: u32, n: int) -> nat
    decreases n,
{
    if n <= 0 {
        0
    } else {
        row_outcome(row, arch, bid, c_me, opp, n - 1) + (row[n - 1] as nat) * (spec_bid_outcome_for_arch(
            arch,
            bid,
            c_me,
            (n - 1) as u32,
            opp,
        ) as nat)
    }
}

/// Total weight of the first `m` rows.
pub open spec fn mat_total(w: Seq<Seq<u64>>, m: int) -> nat
    decreases m,
{
    if m <= 0 {
        0
    } else {
        mat_total(w, m - 1) + row_total(w[m - 1], 6)
    }
}

/// Weight of the first `m` rows against which a challenge of a bid of `q` wins.
pub open spec fn mat_challenge(w: Seq<Seq<u64>>, c_me: u32, q: u32, m: int) -> nat
    decreases m,
{
    if m <= 0 {
        0
    } else {
        mat_challenge(w, c_me, q, m - 1) + row_challenge(w[m - 1], c_me, q, 6)
    }
}

/// Weight of the first `m` rows against which making `bid` wins, row `a`
/// being the archetype `arcs[a]`.
pub open spec fn mat_outcome(w: Seq<Seq<u64>>, arcs: Seq<HighOpenArch>, bid: Bid, c_me: u32, opp: u32, m: int) -> nat
    decreases m,
{
    if m <= 0 {
        0
    } else {
        mat_outcome(w, arcs, bid, c_me, opp, m - 1) + row_outcome(w[m - 1], arcs[m - 1], bid, c_me, opp, 6)
    }
}

/// The weight of winning with a switch to `bid`'s face: each archetype's
/// weight times the weight of `prior`'s counts against which the switch wins.
pub open spec fn mat_switch(
    w: Seq<Seq<u64>>,
    arcs: Seq<HighOpenArch>,
    prior: Seq<u64>,
    bid: Bid,
    c_me: u32,
    opp: u32,
    m: int,
) -> nat
    decreases m,
{
    if m <= 0 {
        0
    } else {
        mat_switch(w, arcs, prior, bid, c_me, opp, m - 1) + row_total(w[m - 1], 6) * row_outcome(
            prior,
            arcs[m - 1],
            bid,
            c_me,
            opp,
            6,
        )
    }
}

/// The prior on the opponent's count of a face we switch to.
#[derive(Clone, Copy, PartialEq, Eq, Debug, Structural)]
pub enum SwitchPrior {
    /// The opponent's strongest face is this one.
    NonBest(u32),
    /// No signal.
    Uncond,
}

pub open spec fn prior_of(p: SwitchPrior, f: u32) -> Seq<u64> {
    match p {
        SwitchPrior::NonBest(best) => nb_table(best, f),
        SwitchPrior::Uncond => uc_table(f),
    }
}

/// The quantity of a switch to `f`: the same on a higher face, one more on a lower one.
pub open spec fn switch_q(prev: Bid, f: u32) -> int {
    if f > prev.face {
        prev.quantity as int
    } else {
        prev.quantity + 1
    }
}

/// The switches to faces one..=`f` with their expected wins.
pub open spec fn switch_evs(
    prev: Bid,
    dice: Seq<u32>,
    w: Seq<Seq<u64>>,
    arcs: Seq<HighOpenArch>,
    sp: SwitchPrior,
    opp: u32,
    f: int,
) -> Seq<(Move, Chance)>
    decreases f,
{
    if f <= 0 {
        Seq::empty()
    } else {
        let rest = switch_evs(prev, dice, w, arcs, sp, opp, f - 1);
        let q = switch_q(prev, f as u32);
        if f == prev.face || q > 10 {
            rest
        } else {
            let bid = Bid { quantity: q as u32, face: f as u32 };
            let prior = prior_of(sp, f as u32);
            rest.push(
                (
                    Move::Bid(bid),
                    Chance {
                        hits: mat_switch(w, arcs, prior, bid, spec_count_face(dice, f as u32) as u32, opp, arcs.len() as int)
                            as u64,
                        total: (mat_total(w, arcs.len() as int) * row_total(prior, 6)) as u64,
                    },
                ),
            )
        }
    }
}

/// Every action with its expected win under the belief: challenge, raise by
/// one (below ten), and each legal switch to another face.
pub open spec fn belief_evs(
    prev: Bid,
    c_me: u32,
    dice: Seq<u32>,
    w: Seq<Seq<u64>>,
    arcs: Seq<HighOpenArch>,
    sp: SwitchPrior,
    opp: u32,
) -> Seq<(Move, Chance)> {
    let m = arcs.len() as int;
    let t = mat_total(w, m) as u64;
    let head = seq![(Move::Challenge, Chance { hits: mat_challenge(w, c_me, prev.quantity, m) as u64, total: t })];
    let ride = Bid { quantity: (prev.quantity + 1) as u32, face: prev.face };
    let with_ride = if prev.quantity < 10 {
        head.push((Move::Bid(ride), Chance { hits: mat_outcome(w, arcs, ride, c_me, opp, m) as u64, total: t }))
    } else {
        head
    };
    with_ride + switch_evs(prev, dice, w, arcs, sp, opp, 6)
}

/// Expected wins of at most 2^34 in both parts.
pub open spec fn small_evs(evs: Seq<(Move, Chance)>) -> bool {
    forall|j: int| 0 <= j < evs.len() ==> (#[trigger] evs[j]).1.hits <= 0x4_0000_0000 && evs[j].1.total <= 0x4_0000_0000
}

/// The first of the first `n` entries with the greatest expected win (a later
/// entry replaces the best so far only when strictly greater).
pub open spec fn first_best(evs: Seq<(Move, Chance)>, n: int) -> (Move, Chance)
    decreases n,
{
    if n <= 1 {
        evs[0]
    } else {
        let b = first_best(evs, n - 1);
        if ratio_lt(b.1, evs[n - 1].1) {
            evs[n - 1]
        } else {
            b
        }
    }
}

/// The first best entry is one of the entries.
pub proof fn lemma_first_best_member(evs: Seq<(Move, Chance)>, n: int)
    requires
        1 <= n <= evs.len(),
    ensures
        exists|i: int| 0 <= i < n && evs[i] == first_best(evs, n),
    decreases n,
{
    if n > 1 {
        lemma_first_best_member(evs, n - 1);
        if !ratio_lt(first_best(evs, n - 1).1, evs[n - 1].1) {
            let i = choose|i: int| 0 <= i < n - 1 && evs[i] == first_best(evs, n - 1);
            assert(evs[i] == first_best(evs, n));
        } else {
            assert(evs[n - 1] == first_best(evs, n));
        }
    } else {
        assert(evs[0] == first_best(evs, 1));
    }
}

/// An expected win below `tn / td` (an expected win over no weight counts as 0).
pub open spec fn ev_below(c: Chance, tn: nat, td: nat) -> bool {
    if c.total == 0 {
        0 < tn
    } else {
        c.hits * td < tn * c.total
    }
}

// ---- computing them

fn total_of(row: &Vec<u64>) -> (r: u64)
    requires
        small_row(row@),
    ensures
        r == row_total(row@, 6),
        r <= 46656,
{
    let mut s: u64 = 0;
    let mut c: usize = 0;
    while c < 6
        invariant
            c <= 6,
            small_row(row@),
            s == row_total(row@, c as int),
            s <= 7776 * c,
        decreases 6 - c,
    {
        s = s + row[c];
        c = c + 1;
    }
    s
}

fn challenge_of(row: &Vec<u64>, c_me: u32, q: u32) -> (r: u64)
    requires
        small_row(row@),
    ensures
        r == row_challenge(row@, c_me, q, 6),
        r <= 46656,
{
    let mut s: u64 = 0;
    let mut c: u32 = 0;
    while c < 6
        invariant
            c <= 6,
            small_row(row@),
            s == row_challenge(row@, c_me, q, c as int),
            s <= 7776 * c,
        decreases 6 - c,
    {
        if (c_me as u64) + (c as u64) < q as u64 {
            s = s + row[c as usize];
        }
        c = c + 1;
    }
    s
}

fn outcome_of(row: &Vec<u64>, arch: HighOpenArch, bid: Bid, c_me: u32, opp: u32) -> (r: u64)
    requires
        small_row(row@),
        c_me <= 1000,
        opp <= 24,
    ensures
        r == row_outcome(row@, arch, bid, c_me, opp, 6),
        r <= row_total(row@, 6),
        r <= 46656,
{
    let mut s: u64 = 0;
    let mut t: u64 = 0;
    let mut c: u32 = 0;
    while c < 6
        invariant
            c <= 6,
            c_me <= 1000,
            opp <= 24,
            small_row(row@),
            s == row_outcome(row@, arch, bid, c_me, opp, c as int),
            t == row_total(row@, c as int),
            s <= t,
            t <= 7776 * c,
        decreases 6 - c,
    {
        let o = bid_outcome_for_arch(arch, bid, c_me, c, opp);
        let x = row[c as usize];
        if o == 1 {
            s = s + x;
        }
        proof {
            assert(x * o == if o == 1 {
                x as int
            } else {
                0
            }) by (nonlinear_arith)
                requires
                    o <= 1,
            ;
        }
        t = t + x;
        c = c + 1;
    }
    s
}

/// The rows of the belief as exact sums: total, challenge and ride weights.
fn belief_sums(belief: &Vec<Vec<u64>>, arcs: &Vec<HighOpenArch>, c_me: u32, prev: Bid, opp: u32) -> (r: (
    u64,
    u64,
    u64,
))
    requires
        small_rows(rows(belief@), arcs@.len() as int),
        arcs@.len() <= belief@.len(),
        c_me <= 1000,
        opp <= 24,
        prev.quantity <= 10,
    ensures
        r.0 == mat_total(rows(belief@), arcs@.len() as int),
        r.1 == mat_challenge(rows(belief@), c_me, prev.quantity, arcs@.len() as int),
        r.2 == mat_outcome(
            rows(belief@),
            arcs@,
            Bid { quantity: (prev.quantity + 1) as u32, face: prev.face },
            c_me,
            opp,
            arcs@.len() as int,
        ),
        r.0 <= 7 * 46656,
        r.1 <= 7 * 46656,
        r.2 <= 7 * 46656,
{
    let ride = Bid { quantity: prev.quantity + 1, face: prev.face };
    let ghost w = rows(belief@);
    let mut t: u64 = 0;
    let mut ch: u64 = 0;
    let mut out: u64 = 0;
    let mut a: usize = 0;
    while a < arcs.len()
        invariant
            a <= arcs@.len(),
            w == rows(belief@),
            small_rows(w, arcs@.len() as int),
            arcs@.len() <= belief@.len(),
            c_me <= 1000,
            opp <= 24,
            t == mat_total(w, a as int),
            ch == mat_challenge(w, c_me, prev.quantity, a as int),
            out == mat_outcome(w, arcs@, ride, c_me, opp, a as int),
            t <= 46656 * a,
            ch <= 46656 * a,
            out <= 46656 * a,
        decreases arcs@.len() - a,
    {
        assert(belief@[a as int]@ == w[a as int]);
        let row = &belief[a];
        t = t + total_of(row);
        ch = ch + challenge_of(row, c_me, prev.quantity);
        out = out + outcome_of(row, arcs[a], ride, c_me, opp);
        a = a + 1;
    }
    (t, ch, out)
}

/// The switch weight of a belief against a prior on the new face.
fn switch_weight(
    belief: &Vec<Vec<u64>>,
    arcs: &Vec<HighOpenArch>,
    prior: &Vec<u64>,
    bid: Bid,
    c_me: u32,
    opp: u32,
) -> (r: u64)
    requires
        small_rows(rows(belief@), arcs@.len() as int),
        small_row(prior@),
        arcs@.len() <= belief@.len(),
        c_me <= 1000,
        opp <= 24,
    ensures
        r == mat_switch(rows(belief@), arcs@, prior@, bid, c_me, opp, arcs@.len() as int),
        r <= mat_total(rows(belief@), arcs@.len() as int) * 46656,
{
    let ghost w = rows(belief@);
    let mut s: u64 = 0;
    let mut t: u64 = 0;
    let mut a: usize = 0;
    while a < arcs.len()
        invariant
            a <= arcs@.len(),
            w == rows(belief@),
            small_rows(w, arcs@.len() as int),
            small_row(prior@),
            arcs@.len() <= belief@.len(),
            c_me <= 1000,
            opp <= 24,
            s == mat_switch(w, arcs@, prior@, bid, c_me, opp, a as int),
            t == mat_total(w, a as int),
            t <= 46656 * a,
            s <= t * 46656,
        decreases arcs@.len() - a,
    {
        assert(belief@[a as int]@ == w[a as int]);
        let row = &belief[a];
        let rt = total_of(row);
        let o = outcome_of(prior, arcs[a], bid, c_me, opp);
        proof {
            assert(rt * o <= rt * 46656) by (nonlinear_arith)
                requires
                    o <= 46656,
            ;
            assert((t + rt) * 46656 == t * 46656 + rt * 46656) by (nonlinear_arith);
        }
        s = s + rt * o;
        t = t + rt;
        a = a + 1;
    }
    s
}

/// The prior table of a switch to `f`.
fn prior_table<'a>(sp: SwitchPrior, f: u32, priors: &'a PriorTables, faces: &'a FaceTables) -> (r: &'a Vec<u64>)
    requires
        1 <= f <= 6,
        sp matches SwitchPrior::NonBest(b) ==> 1 <= b <= 6,
    ensures
        r@ == prior_of(sp, f),
        small_row(r@),
{
    match sp {
        SwitchPrior::NonBest(b) => {
            proof {
                lemma_nb_small(b, f);
            }
            priors.non_best(b, f)
        },
        SwitchPrior::Uncond => {
            proof {
                lemma_uc_small(f);
            }
            faces.uncond(f)
        },
    }
}

/// Every action with its expected win under the belief: one row of the
/// belief per archetype of `set`, in order; rows past those are not read.
pub fn belief_action_evs(
    prev: Bid,
    c_me: u32,
    ctx: &Context,
    belief: &Vec<Vec<u64>>,
    set: ArchSet,
    sp: SwitchPrior,
    priors: &PriorTables,
    faces: &FaceTables,
) -> (r: Vec<(Move, Chance)>)
    requires
        ctx.well_formed(),
        valid_bid(prev),
        c_me <= 1000,
        small_rows(rows(belief@), archs(set).len() as int),
        archs(set).len() <= belief@.len(),
        sp matches SwitchPrior::NonBest(b) ==> 1 <= b <= 6,
    ensures
        r@ == belief_evs(prev, c_me, ctx.my_dice@, rows(belief@), archs(set), sp, ctx.dice_per_player),
        r@.len() >= 1,
        small_evs(r@),
{
    let arcs = arch_list(set);
    let opp = ctx.dice_per_player;
    let ghost w = rows(belief@);
    let ghost m = arcs@.len() as int;
    let (t, ch, ride_w) = belief_sums(belief, &arcs, c_me, prev, opp);
    let mut out: Vec<(Move, Chance)> = Vec::new();
    out.push((Move::Challenge, Chance { hits: ch, total: t }));
    if prev.quantity < 10 {
        out.push((Move::Bid(Bid { quantity: prev.quantity + 1, face: prev.face }), Chance { hits: ride_w, total: t }));
    }
    let ghost with_ride = out@;
    assert(small_evs(out@));
    proof {
        let head = seq![(Move::Challenge, Chance { hits: mat_challenge(w, c_me, prev.quantity, m) as u64, total: mat_total(w, m) as u64 })];
        assert(prev.quantity < 10 ==> with_ride =~= head.push(
            (
                Move::Bid(Bid { quantity: (prev.quantity + 1) as u32, face: prev.face }),
                Chance {
                    hits: mat_outcome(w, archs(set), Bid { quantity: (prev.quantity + 1) as u32, face: prev.face }, c_me, opp, m) as u64,
                    total: mat_total(w, m) as u64,
                },
            ),
        ));
        assert(prev.quantity >= 10 ==> with_ride =~= head);
        assert(out@ =~= with_ride + switch_evs(prev, ctx.my_dice@, w, archs(set), sp, opp, 0));
    }
    let mut f: u32 = 1;
    while f <= 6
        invariant
            1 <= f <= 7,
            ctx.well_formed(),
            valid_bid(prev),
            c_me <= 1000,
            opp == ctx.dice_per_player,
            w == rows(belief@),
            m == arcs@.len(),
            small_rows(w, m),
            arcs@ == archs(set),
            arcs@.len() <= belief@.len(),
            t == mat_total(w, m),
            t <= 7 * 46656,
            sp matches SwitchPrior::NonBest(b) ==> 1 <= b <= 6,
            out@ == with_ride + switch_evs(prev, ctx.my_dice@, w, archs(set), sp, opp, (f - 1) as int),
            small_evs(out@),
        decreases 7 - f,
    {
        let q: u32 = if f > prev.face {
            prev.quantity
        } else {
            prev.quantity + 1
        };
        if f != prev.face && q <= 10 {
            let prior = prior_table(sp, f, priors, faces);
            proof {
                lemma_count_face_bounded(ctx.my_dice@, f);
            }
            let c_t = count_face(ctx.my_dice, f);
            let bid = Bid { quantity: q, face: f };
            let s = switch_weight(belief, &arcs, prior, bid, c_t, opp);
            let n = total_of(prior);
            proof {
                assert(t * n <= 7 * 46656 * 46656) by (nonlinear_arith)
                    requires
                        t <= 7 * 46656,
                        n <= 46656,
                ;
                assert(s <= t * 46656);
                assert(t * 46656 <= 7 * 46656 * 46656) by (nonlinear_arith)
                    requires
                        t <= 7 * 46656,
                ;
            }
            out.push((Move::Bid(bid), Chance { hits: s, total: t * n }));
        }
        proof {
            assert(out@ =~= with_ride + switch_evs(prev, ctx.my_dice@, w, archs(set), sp, opp, f as int));
        }
        f = f + 1;
    }
    proof {
        assert(out@ =~= belief_evs(prev, c_me, ctx.my_dice@, w, archs(set), sp, opp));
    }
    out
}

/// The first action of greatest expected win; with a threshold `(tn, td)`,
/// `None` when even that one falls below `tn / td`.
pub fn select_action(evs: &Vec<(Move, Chance)>, threshold: Option<(u64, u64)>) -> (r: Option<Move>)
    requires
        evs@.len() >= 1,
    ensures
        ({
            let best = first_best(evs@, evs@.len() as int);
            r == match threshold {
                Some(t) => if ev_below(best.1, t.0 as nat, t.1 as nat) {
                    None
                } else {
                    Some(best.0)
                },
                None => Some(best.0),
            }
        }),
{
    let mut best = evs[0];
    let mut i: usize = 1;
    while i < evs.len()
        invariant
            1 <= i <= evs@.len(),
            best == first_best(evs@, i as int),
        decreases evs@.len() - i,
    {
        let e = evs[i];
        if crate::face_bots::is_ratio_lt(best.1, e.1) {
            best = e;
        }
        i = i + 1;
    }
    match threshold {
        Some((tn, td)) => {
            proof {
                crate::face_bots::lemma_products_fit(best.1.hits, td);
                crate::face_bots::lemma_products_fit(tn, best.1.total);
            }
            let below = if best.1.total == 0 {
                0 < tn
            } else {
                (best.1.hits as u128) * (td as u128) < (tn as u128) * (best.1.total as u128)
            };
            if below {
                None
            } else {
                Some(best.0)
            }
        },
        None => Some(best.0),
    }
}

} // verus!
