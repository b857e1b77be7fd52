//! The eleventh house bot and its variants, and the deployed bot: the tenth
//! bot plus beliefs over (archetype, count) after a high opening, against a
//! copycat, and when the opponent keeps raising our opening by one.
use crate::archetypes::{
    bid_outcome_for_arch, bid_outcome_for_arch_dyn, detect_copycat, detect_high_opening,
    detect_we_open_raises, spec_bid_outcome_for_arch, spec_bid_outcome_for_arch_dyn, spec_detect_copycat,
    spec_detect_high_opening, spec_detect_we_open_raises, spec_try_face_switch_strong,
    try_face_switch_strong, HighOpenArch,
};
use crate::belief_bots::{
    small_evs, arch_list, archs, belief_action_evs, belief_evs, belief_of, build_belief, ev_below, first_best, nb_table,
    row_challenge, row_outcome, row_total, select_action, small_row, switch_q, ArchSet, PriorTables, SwitchPrior,
};
use crate::bidding::{is_next_bid, last_bid, legal_next_bids, lists_next_bids};
use crate::chance::Chance;
use crate::counter_bots::{v10_decision, v10_decision_at, MyBotV10};
use crate::dice::{count_face, spec_count_face, spec_last_bid, valid_bid, Bid, Context, HistoryEntry, Move, Strategy};
use crate::face_bots::{
    first_best_index, is_ratio_lt, least_best_by, lemma_first_best_is_least_best, lemma_ratio_le_trans, mixture_decision,
    mixture_pick, posterior, prior_weight, proper, ratio_lt, uc_table, v3_pick_random_tiebreak, v3_tiebreak_decision,
    FaceTables,
};
use crate::liar_players::lemma_ctx_facts;
use crate::rng::{gen_index, gen_range_inclusive_u32};
use rand::rngs::StdRng;
use vstd::prelude::*;

verus! {

// ---------------------------------------------------------------- the belief branches

/// The actions after a high opening on `open_f` at `open_q`, at the position
/// of our dice `dice` and the history `h` (we being `me`, the opponent hiding
/// `opp` dice): a belief over the three high openers from the counts of hands
/// whose strongest face is `open_f`.
pub open spec fn high_open_evs_at(
    dice: Seq<u32>,
    opp: u32,
    h: Seq<HistoryEntry>,
    me: u32,
    p: Bid,
    open_q: u32,
    open_f: u32,
) -> Seq<(Move, Chance)> {
    belief_evs(
        p,
        spec_count_face(dice, p.face) as u32,
        dice,
        belief_of(h, me, opp, ArchSet::HighOpen, nb_table(open_f, open_f), Some(open_q)),
        archs(ArchSet::HighOpen),
        SwitchPrior::NonBest(open_f),
        opp,
    )
}

pub open spec fn high_open_evs(ctx: &Context, p: Bid, open_q: u32, open_f: u32) -> Seq<(Move, Chance)> {
    high_open_evs_at(ctx.my_dice@, ctx.dice_per_player, ctx.history@, ctx.my_id, p, open_q, open_f)
}

/// The actions against a copycat that opened on `open_f`.
pub open spec fn copycat_evs_at(dice: Seq<u32>, opp: u32, h: Seq<HistoryEntry>, me: u32, p: Bid, open_f: u32) -> Seq<
    (Move, Chance),
> {
    belief_evs(
        p,
        spec_count_face(dice, p.face) as u32,
        dice,
        belief_of(h, me, opp, ArchSet::CopycatOnly, nb_table(open_f, open_f), None),
        archs(ArchSet::CopycatOnly),
        SwitchPrior::NonBest(open_f),
        opp,
    )
}

pub open spec fn copycat_evs(ctx: &Context, p: Bid, open_f: u32) -> Seq<(Move, Chance)> {
    copycat_evs_at(ctx.my_dice@, ctx.dice_per_player, ctx.history@, ctx.my_id, p, open_f)
}

/// The actions when the opponent keeps raising our opening: a belief over
/// every archetype from the no-signal counts of the last bid's face.
pub open spec fn we_open_evs_at(dice: Seq<u32>, opp: u32, h: Seq<HistoryEntry>, me: u32, p: Bid) -> Seq<(Move, Chance)> {
    belief_evs(
        p,
        spec_count_face(dice, p.face) as u32,
        dice,
        belief_of(h, me, opp, ArchSet::WeOpen, uc_table(p.face), None),
        archs(ArchSet::WeOpen),
        SwitchPrior::Uncond,
        opp,
    )
}

pub open spec fn we_open_evs(ctx: &Context, p: Bid) -> Seq<(Move, Chance)> {
    we_open_evs_at(ctx.my_dice@, ctx.dice_per_player, ctx.history@, ctx.my_id, p)
}

/// The first action of greatest expected win.
pub open spec fn best_move(evs: Seq<(Move, Chance)>) -> Move {
    first_best(evs, evs.len() as int).0
}

/// The raise-our-opening branch acts only when its best action wins at least half the time.
pub open spec fn we_open_choice_at(dice: Seq<u32>, opp: u32, h: Seq<HistoryEntry>, me: u32, p: Bid) -> Option<Move> {
    let evs = we_open_evs_at(dice, opp, h, me, p);
    let best = first_best(evs, evs.len() as int);
    if ev_below(best.1, 1, 2) {
        None
    } else {
        Some(best.0)
    }
}

pub open spec fn we_open_choice(ctx: &Context, p: Bid) -> Option<Move> {
    we_open_choice_at(ctx.my_dice@, ctx.dice_per_player, ctx.history@, ctx.my_id, p)
}

/// What the eleventh bot's branches decide with the last bid `p`, if one applies:
/// after a high opening on `p`'s face (three or more, at three once raised), a sure face switch of ours
/// or the high-opener belief; against a copycat on `p`'s face, the copycat
/// belief; when the opponent keeps raising our opening (face two or more),
/// the belief over every archetype, if confident.
pub open spec fn v11_branches_at(dice: Seq<u32>, opp: u32, h: Seq<HistoryEntry>, me: u32, p: Bid) -> Option<Move> {
    let hi = spec_detect_high_opening(h, me);
    let cc = spec_detect_copycat(h, me);
    if hi is Some && p.face == hi.unwrap().1 {
        Some(
            match spec_try_face_switch_strong(dice, p, hi.unwrap().1) {
                Some(b) => Move::Bid(b),
                None => best_move(high_open_evs_at(dice, opp, h, me, p, hi.unwrap().0, hi.unwrap().1)),
            },
        )
    } else if cc is Some && p.face == cc->0 {
        Some(best_move(copycat_evs_at(dice, opp, h, me, p, cc->0)))
    } else if p.face >= 2 && spec_detect_we_open_raises(h, me) is Some {
        we_open_choice_at(dice, opp, h, me, p)
    } else {
        None
    }
}

pub open spec fn v11_branches(ctx: &Context, p: Bid) -> Option<Move> {
    v11_branches_at(ctx.my_dice@, ctx.dice_per_player, ctx.history@, ctx.my_id, p)
}

fn high_open_evs_exec(
    ctx: &Context,
    p: Bid,
    open_q: u32,
    open_f: u32,
    priors: &PriorTables,
    faces: &FaceTables,
) -> (r: Vec<(Move, Chance)>)
    requires
        ctx.well_formed(),
        valid_bid(p),
        p.face == open_f,
    ensures
        r@ == high_open_evs(ctx, p, open_q, open_f),
        r@.len() >= 1,
        small_evs(r@),
{
    proof {
        lemma_ctx_facts(ctx);
        crate::belief_bots::lemma_nb_small(open_f, open_f);
    }
    let base = priors.non_best(open_f, open_f);
    let belief = build_belief(ctx, ArchSet::HighOpen, base, Some(open_q));
    let c_me = count_face(ctx.my_dice, p.face);
    belief_action_evs(p, c_me, ctx, &belief, ArchSet::HighOpen, SwitchPrior::NonBest(open_f), priors, faces)
}

fn copycat_evs_exec(ctx: &Context, p: Bid, open_f: u32, priors: &PriorTables, faces: &FaceTables) -> (r: Vec<
    (Move, Chance),
>)
    requires
        ctx.well_formed(),
        valid_bid(p),
        p.face == open_f,
    ensures
        r@ == copycat_evs(ctx, p, open_f),
        r@.len() >= 1,
        small_evs(r@),
{
    proof {
        lemma_ctx_facts(ctx);
        crate::belief_bots::lemma_nb_small(open_f, open_f);
    }
    let base = priors.non_best(open_f, open_f);
    let belief = build_belief(ctx, ArchSet::CopycatOnly, base, None);
    let c_me = count_face(ctx.my_dice, p.face);
    belief_action_evs(p, c_me, ctx, &belief, ArchSet::CopycatOnly, SwitchPrior::NonBest(open_f), priors, faces)
}

fn we_open_evs_exec(ctx: &Context, p: Bid, priors: &PriorTables, faces: &FaceTables) -> (r: Vec<(Move, Chance)>)
    requires
        ctx.well_formed(),
        valid_bid(p),
    ensures
        r@ == we_open_evs(ctx, p),
        r@.len() >= 1,
        small_evs(r@),
{
    proof {
        lemma_ctx_facts(ctx);
        crate::belief_bots::lemma_uc_small(p.face);
    }
    let base = faces.uncond(p.face);
    let belief = build_belief(ctx, ArchSet::WeOpen, base, None);
    let c_me = count_face(ctx.my_dice, p.face);
    belief_action_evs(p, c_me, ctx, &belief, ArchSet::WeOpen, SwitchPrior::Uncond, priors, faces)
}

fn best_of(evs: &Vec<(Move, Chance)>) -> (r: Move)
    requires
        evs@.len() >= 1,
    ensures
        r == best_move(evs@),
{
    match select_action(evs, None) {
        Some(m) => m,
        None => Move::Challenge,
    }
}

/// The branches of the eleventh bot, shared by the deployed bot, with the last bid `p`.
fn branch_move(ctx: &Context, p: Bid, priors: &PriorTables, faces: &FaceTables) -> (r: Option<Move>)
    requires
        ctx.well_formed(),
        spec_last_bid(ctx.history@) == Some(p),
    ensures
        r == v11_branches(ctx, p),
{
    proof {
        lemma_ctx_facts(ctx);
    }
    let hi = detect_high_opening(ctx);
    if let Some((open_q, open_f)) = hi {
        if p.face == open_f {
            if let Some(b) = try_face_switch_strong(ctx.my_dice, p, open_f) {
                return Some(Move::Bid(b));
            }
            let evs = high_open_evs_exec(ctx, p, open_q, open_f, priors, faces);
            return Some(best_of(&evs));
        }
    }
    if let Some(open_f) = detect_copycat(ctx) {
        if p.face == open_f {
            let evs = copycat_evs_exec(ctx, p, open_f, priors, faces);
            return Some(best_of(&evs));
        }
    }
    if p.face >= 2 && detect_we_open_raises(ctx).is_some() {
        let evs = we_open_evs_exec(ctx, p, priors, faces);
        return select_action(&evs, Some((1, 2)));
    }
    None
}

/// The eleventh bot's decision at a position: a branch when one applies,
/// else the tenth bot's.
pub open spec fn v11_decision_at(dice: Seq<u32>, opp: u32, h: Seq<HistoryEntry>, me: u32, r: Move) -> bool {
    match spec_last_bid(h) {
        Some(p) => match v11_branches_at(dice, opp, h, me, p) {
            Some(m) => r == m,
            None => v10_decision_at(dice, opp, h, me, r),
        },
        None => v10_decision_at(dice, opp, h, me, r),
    }
}

pub open spec fn v11_decision(ctx: &Context, r: Move) -> bool {
    v11_decision_at(ctx.my_dice@, ctx.dice_per_player, ctx.history@, ctx.my_id, r)
}

/// At any position the eleventh bot's decision allows one move only.
pub proof fn lemma_v11_unique(dice: Seq<u32>, opp: u32, h: Seq<HistoryEntry>, me: u32, r1: Move, r2: Move)
    requires
        v11_decision_at(dice, opp, h, me, r1),
        v11_decision_at(dice, opp, h, me, r2),
    ensures
        r1 == r2,
{
    let prev = spec_last_bid(h);
    let pp = crate::face_bots::v3_pp_at(dice, h, me);
    let f = |b: Bid| crate::face_bots::v3_chance(dice, opp, h, me, prev, b);
    if crate::face_bots::v3_decision_at(dice, opp, h, me, r1) && crate::face_bots::v3_decision_at(dice, opp, h, me, r2) {
        crate::face_bots::lemma_judged_unique(
            f,
            prev,
            pp,
            prev is Some && crate::chance::below_pct(pp, 40),
            true,
            r1,
            r2,
        );
    }
}

/// The tenth bot plus archetype beliefs after a high opening, against a
/// copycat, and when the opponent keeps raising our opening.
pub struct MyBotV11 {
    pub inner: MyBotV10,
    pub priors: PriorTables,
}

impl MyBotV11 {
    /// The bot, drawing what it leaves to chance from `rng`.
    pub fn new(rng: StdRng) -> (r: Self)
        ensures
            r.inner.fallback._rng == rng,
    {
        MyBotV11 { inner: MyBotV10::new(rng), priors: PriorTables::new() }
    }
}

impl Strategy for MyBotV11 {
    fn name(&self) -> (r: &str)
        ensures
            r@ == "mybot-v11"@,
    {
        "mybot-v11"
    }

    open spec fn may_pick(my_id: u32, my_dice: Seq<u32>, history: Seq<HistoryEntry>, dice_per_player: u32, r: Move) -> bool {
        v11_decision_at(my_dice, dice_per_player, history, my_id, r)
    }

    fn pick(&mut self, ctx: &Context) -> (r: Move)
        ensures
            v11_decision(ctx, r),
    {
        let prev = match last_bid(ctx) {
            Some(p) => p,
            None => {
                return self.inner.pick(ctx);
            },
        };
        match branch_move(ctx, prev, &self.priors, &self.inner.fallback.tables) {
            Some(m) => m,
            None => self.inner.pick(ctx),
        }
    }
}

/// The eleventh bot that always opens (1, 1).
pub struct MyBotV11OpenLow {
    pub inner: MyBotV11,
}

impl MyBotV11OpenLow {
    /// The bot, drawing what it leaves to chance from `rng`.
    pub fn new(rng: StdRng) -> (r: Self)
        ensures
            r.inner.inner.fallback._rng == rng,
    {
        MyBotV11OpenLow { inner: MyBotV11::new(rng) }
    }
}

impl Strategy for MyBotV11OpenLow {
    fn name(&self) -> (r: &str)
        ensures
            r@ == "mybot-v11-open-low"@,
    {
        "mybot-v11-open-low"
    }

    fn pick(&mut self, ctx: &Context) -> (r: Move)
        ensures
            spec_last_bid(ctx.history@) is None ==> r == Move::Bid(Bid { quantity: 1, face: 1 }),
            spec_last_bid(ctx.history@) is Some ==> v11_decision(ctx, r),
    {
        if last_bid(ctx).is_none() {
            return Move::Bid(Bid { quantity: 1, face: 1 });
        }
        self.inner.pick(ctx)
    }
}

// ---------------------------------------------------------------- archetype-aware raises

/// The opponent's count weights for `face`: the face-signal blend once it has
/// bid the face, else the no-signal weights.
pub open spec fn signal_row(h: Seq<HistoryEntry>, me: u32, face: u32) -> Seq<u64> {
    Seq::new(6, |k: int| prior_weight(h, me, face, k) as u64)
}

/// Weights of at most 2^36 each.
pub open spec fn capped_row(row: Seq<u64>) -> bool {
    row.len() == 6 && forall|k: int| 0 <= k < 6 ==> 1 <= #[trigger] row[k] <= 0x10_0000_0000
}

fn signal_weights(ctx: &Context, face: u32, tables: &FaceTables) -> (r: Vec<u64>)
    requires
        1 <= face <= 6,
    ensures
        r@ == signal_row(ctx.history@, ctx.my_id, face),
        capped_row(r@),
{
    let r = posterior(ctx, face, tables, 1, 1);
    proof {
        assert(r@ =~= signal_row(ctx.history@, ctx.my_id, face));
    }
    r
}

/// Over the first `m` archetypes, the weight of `prior`'s counts against
/// which making `bid` wins (the archetype answering by the simple model).
pub open spec fn arch_sum(prior: Seq<u64>, arcs: Seq<HighOpenArch>, bid: Bid, c_me: u32, opp: u32, m: int) -> nat
    decreases m,
{
    if m <= 0 {
        0
    } else {
        arch_sum(prior, arcs, bid, c_me, opp, m - 1) + row_outcome(prior, arcs[m - 1], bid, c_me, opp, 6)
    }
}

/// Weight of the counts `c < n` against which making `bid` wins when the
/// archetype answers by its own policy.
pub open spec fn row_outcome_dyn(row: Seq<u64>, arch: HighOpenArch, bid: Bid, dice: Seq<u32>, opp: u32, n: int) -> nat
    decreases n,
{
    if n <= 0 {
        0
    } else {
        row_outcome_dyn(row, arch, bid, dice, opp, n - 1) + (row[n - 1] as nat) * (spec_bid_outcome_for_arch_dyn(
            arch,
            bid,
            dice,
            (n - 1) as u32,
            opp,
        ) as nat)
    }
}

/// `arch_sum` with each archetype answering by its own policy.
pub open spec fn arch_sum_dyn(prior: Seq<u64>, arcs: Seq<HighOpenArch>, bid: Bid, dice: Seq<u32>, opp: u32, m: int) -> nat
    decreases m,
{
    if m <= 0 {
        0
    } else {
        arch_sum_dyn(prior, arcs, bid, dice, opp, m - 1) + row_outcome_dyn(prior, arcs[m - 1], bid, dice, opp, 6)
    }
}

/// Expected win of a switch to `bid` (on its face) against the archetypes
/// taken as equally likely, under the face-signal weights.
pub open spec fn safe_switch_ev(ctx: &Context, bid: Bid) -> Chance {
    let row = signal_row(ctx.history@, ctx.my_id, bid.face);
    Chance {
        hits: arch_sum(
            row,
            archs(ArchSet::WeOpen),
            bid,
            spec_count_face(ctx.my_dice@, bid.face) as u32,
            ctx.dice_per_player,
            7,
        ) as u64,
        total: (7 * row_total(row, 6)) as u64,
    }
}

/// The switches to faces one..=`f` that our own dice make true, best first
/// wins (strictly greater replaces), starting from an expected win of 0.
pub open spec fn safe_best(ctx: &Context, p: Bid, f: int) -> (Option<Move>, Chance)
    decreases f,
{
    if f <= 0 {
        (None, Chance { hits: 0, total: 1 })
    } else {
        let rest = safe_best(ctx, p, f - 1);
        let q = switch_q(p, f as u32);
        let bid = Bid { quantity: q as u32, face: f as u32 };
        if f == p.face || q > 10 || spec_count_face(ctx.my_dice@, f as u32) < q {
            rest
        } else if ratio_lt(rest.1, safe_switch_ev(ctx, bid)) {
            (Some(Move::Bid(bid)), safe_switch_ev(ctx, bid))
        } else {
            rest
        }
    }
}

/// A switch that our own dice make true, when its expected win reaches 65%.
pub open spec fn safe_switch(ctx: &Context, p: Bid) -> Option<Move> {
    let b = safe_best(ctx, p, 6);
    if 20 * b.1.hits >= 13 * b.1.total {
        b.0
    } else {
        None
    }
}

/// Over the archetypes, the weight of `row`'s counts against which `bid` wins.
fn arch_weight(row: &Vec<u64>, arcs: &Vec<HighOpenArch>, bid: Bid, c_me: u32, opp: u32) -> (r: u64)
    requires
        capped_row(row@),
        arcs@.len() == 7,
        c_me <= 1000,
        opp <= 24,
    ensures
        r == arch_sum(row@, arcs@, bid, c_me, opp, 7),
        r <= 7 * row_total(row@, 6),
{
    let mut s: u64 = 0;
    let mut a: usize = 0;
    let ghost t = row_total(row@, 6);
    proof {
        lemma_capped_total(row@, 6);
    }
    while a < 7
        invariant
            a <= 7,
            capped_row(row@),
            arcs@.len() == 7,
            c_me <= 1000,
            opp <= 24,
            t == row_total(row@, 6),
            t <= 6 * 0x10_0000_0000,
            s == arch_sum(row@, arcs@, bid, c_me, opp, a as int),
            s <= a * t,
        decreases 7 - a,
    {
        let o = row_weight_outcome(row, arcs[a], bid, c_me, opp);
        proof {
            assert((a + 1) * t == a * t + t) by (nonlinear_arith);
            assert(a * t <= 6 * t) by (nonlinear_arith)
                requires
                    a <= 6,
            ;
        }
        s = s + o;
        a = a + 1;
    }
    s
}

proof fn lemma_capped_total(row: Seq<u64>, n: int)
    requires
        capped_row(row),
        0 <= n <= 6,
    ensures
        n <= row_total(row, n) <= n * 0x10_0000_0000,
    decreases n,
{
    if n > 0 {
        lemma_capped_total(row, n - 1);
    }
}

fn row_weight_outcome(row: &Vec<u64>, arch: HighOpenArch, bid: Bid, c_me: u32, opp: u32) -> (r: u64)
    requires
        capped_row(row@),
        c_me <= 1000,
        opp <= 24,
    ensures
        r == row_outcome(row@, arch, bid, c_me, opp, 6),
        r <= row_total(row@, 6),
{
    let mut s: u64 = 0;
    let mut t: u64 = 0;
    let mut c: u32 = 0;
    while c < 6
        invariant
            c <= 6,
            c_me <= 1000,
            opp <= 24,
            capped_row(row@),
            s == row_outcome(row@, arch, bid, c_me, opp, c as int),
            t == row_total(row@, c as int),
            s <= t,
            t <= 0x10_0000_0000 * c,
        decreases 6 - c,
    {
        let o = bid_outcome_for_arch(arch, bid, c_me, c, opp);
        let x = row[c as usize];
        if o == 1 {
            s = s + x;
        }
        proof {
            assert(x * o == if o == 1 {
                x as int
            } else {
                0
            }) by (nonlinear_arith)
                requires
                    o <= 1,
            ;
        }
        t = t + x;
        c = c + 1;
    }
    s
}

fn row_weight_outcome_dyn(row: &Vec<u64>, arch: HighOpenArch, bid: Bid, dice: &[u32], opp: u32) -> (r: u64)
    requires
        capped_row(row@),
        dice@.len() <= 1000,
        opp <= 24,
    ensures
        r == row_outcome_dyn(row@, arch, bid, dice@, opp, 6),
        r <= row_total(row@, 6),
{
    let mut s: u64 = 0;
    let mut t: u64 = 0;
    let mut c: u32 = 0;
    while c < 6
        invariant
            c <= 6,
            dice@.len() <= 1000,
            opp <= 24,
            capped_row(row@),
            s == row_outcome_dyn(row@, arch, bid, dice@, opp, c as int),
            t == row_total(row@, c as int),
            s <= t,
            t <= 0x10_0000_0000 * c,
        decreases 6 - c,
    {
        let o = bid_outcome_for_arch_dyn(arch, bid, dice, c, opp);
        let x = row[c as usize];
        if o == 1 {
            s = s + x;
        }
        proof {
            assert(x * o == if o == 1 {
                x as int
            } else {
                0
            }) by (nonlinear_arith)
                requires
                    o <= 1,
            ;
        }
        t = t + x;
        c = c + 1;
    }
    s
}

fn arch_weight_dyn(row: &Vec<u64>, arcs: &Vec<HighOpenArch>, bid: Bid, dice: &[u32], opp: u32) -> (r: u64)
    requires
        capped_row(row@),
        arcs@.len() == 7,
        dice@.len() <= 1000,
        opp <= 24,
    ensures
        r == arch_sum_dyn(row@, arcs@, bid, dice@, opp, 7),
        r <= 7 * row_total(row@, 6),
{
    let mut s: u64 = 0;
    let mut a: usize = 0;
    let ghost t = row_total(row@, 6);
    proof {
        lemma_capped_total(row@, 6);
    }
    while a < 7
        invariant
            a <= 7,
            capped_row(row@),
            arcs@.len() == 7,
            dice@.len() <= 1000,
            opp <= 24,
            t == row_total(row@, 6),
            t <= 6 * 0x10_0000_0000,
            s == arch_sum_dyn(row@, arcs@, bid, dice@, opp, a as int),
            s <= a * t,
        decreases 7 - a,
    {
        let o = row_weight_outcome_dyn(row, arcs[a], bid, dice, opp);
        proof {
            assert((a + 1) * t == a * t + t) by (nonlinear_arith);
            assert(a * t <= 6 * t) by (nonlinear_arith)
                requires
                    a <= 6,
            ;
        }
        s = s + o;
        a = a + 1;
    }
    s
}

fn total_weight(row: &Vec<u64>) -> (r: u64)
    requires
        capped_row(row@),
    ensures
        r == row_total(row@, 6),
        6 <= r <= 6 * 0x10_0000_0000,
{
    proof {
        lemma_capped_total(row@, 6);
    }
    let mut s: u64 = 0;
    let mut c: usize = 0;
    while c < 6
        invariant
            c <= 6,
            capped_row(row@),
            s == row_total(row@, c as int),
            s <= 0x10_0000_0000 * c,
        decreases 6 - c,
    {
        s = s + row[c];
        c = c + 1;
    }
    s
}

/// A switch our own dice make true, when its expected win reaches 65%.
fn safe_switch_pick(ctx: &Context, p: Bid, tables: &FaceTables) -> (r: Option<Move>)
    requires
        ctx.well_formed(),
        valid_bid(p),
    ensures
        r == safe_switch(ctx, p),
{
    proof {
        lemma_ctx_facts(ctx);
    }
    let arcs = arch_list(ArchSet::WeOpen);
    let mut best: (Option<Move>, Chance) = (None, Chance { hits: 0, total: 1 });
    let mut f: u32 = 1;
    while f <= 6
        invariant
            1 <= f <= 7,
            ctx.well_formed(),
            valid_bid(p),
            arcs@ == archs(ArchSet::WeOpen),
            arcs@.len() == 7,
            forall|g: u32| #[trigger] spec_count_face(ctx.my_dice@, g) <= ctx.my_dice@.len(),
            best == safe_best(ctx, p, (f - 1) as int),
        decreases 7 - f,
    {
        let q: u32 = if f > p.face {
            p.quantity
        } else {
            p.quantity + 1
        };
        let c_t = count_face(ctx.my_dice, f);
        if f != p.face && q <= 10 && c_t >= q {
            let bid = Bid { quantity: q, face: f };
            let row = signal_weights(ctx, f, tables);
            let hits = arch_weight(&row, &arcs, bid, c_t, ctx.dice_per_player);
            let n = total_weight(&row);
            let e = Chance { hits, total: 7 * n };
            proof {
                assert(e == safe_switch_ev(ctx, bid));
            }
            if is_ratio_lt(best.1, e) {
                best = (Some(Move::Bid(bid)), e);
            }
        }
        f = f + 1;
    }
    if (20 * (best.1.hits as u128)) >= 13 * (best.1.total as u128) {
        best.0
    } else {
        None
    }
}

/// The expected win of challenging `p` under the face-signal weights of its face.
pub open spec fn dyn_challenge_ev(ctx: &Context, p: Bid) -> Chance {
    let row = signal_row(ctx.history@, ctx.my_id, p.face);
    Chance {
        hits: row_challenge(row, spec_count_face(ctx.my_dice@, p.face) as u32, p.quantity, 6) as u64,
        total: row_total(row, 6) as u64,
    }
}

/// The expected win of raising to `b` against the archetypes taken as
/// equally likely, each answering by its own policy.
pub open spec fn dyn_bid_ev(ctx: &Context, b: Bid) -> Chance {
    let row = signal_row(ctx.history@, ctx.my_id, b.face);
    Chance {
        hits: arch_sum_dyn(row, archs(ArchSet::WeOpen), b, ctx.my_dice@, ctx.dice_per_player, 7) as u64,
        total: (7 * row_total(row, 6)) as u64,
    }
}

/// The archetype-aware choice among all raises: the least raise of greatest
/// expected win when it beats challenging, else a challenge.
pub open spec fn dyn_decision(ctx: &Context, p: Bid, r: Move) -> bool {
    let f = |b: Bid| dyn_bid_ev(ctx, b);
    &&& r is Challenge <==> forall|c: Bid| is_next_bid(Some(p), c) ==> !ratio_lt(dyn_challenge_ev(ctx, p), f(c))
    &&& r matches Move::Bid(b) ==> least_best_by(f, Some(p), b)
}

fn challenge_weight_capped(row: &Vec<u64>, c_me: u32, q: u32) -> (r: u64)
    requires
        capped_row(row@),
    ensures
        r == row_challenge(row@, c_me, q, 6),
        r <= row_total(row@, 6),
{
    let mut s: u64 = 0;
    let mut t: u64 = 0;
    let mut c: u32 = 0;
    while c < 6
        invariant
            c <= 6,
            capped_row(row@),
            s == row_challenge(row@, c_me, q, c as int),
            t == row_total(row@, c as int),
            s <= t,
            t <= 0x10_0000_0000 * c,
        decreases 6 - c,
    {
        let x = row[c as usize];
        if (c_me as u64) + (c as u64) < q as u64 {
            s = s + x;
        }
        t = t + x;
        c = c + 1;
    }
    s
}

/// Scores every raise against each archetype's own way of answering.
fn dyn_pick(ctx: &Context, p: Bid, tables: &FaceTables) -> (r: Move)
    requires
        ctx.well_formed(),
        valid_bid(p),
    ensures
        dyn_decision(ctx, p, r),
{
    proof {
        lemma_ctx_facts(ctx);
    }
    let ghost f = |b: Bid| dyn_bid_ev(ctx, b);
    let arcs = arch_list(ArchSet::WeOpen);
    let mine_prev = count_face(ctx.my_dice, p.face);
    let prev_row = signal_weights(ctx, p.face, tables);
    let ch_hits = challenge_weight_capped(&prev_row, mine_prev, p.quantity);
    let ch_total = total_weight(&prev_row);
    let ech = Chance { hits: ch_hits, total: ch_total };
    assert(ech == dyn_challenge_ev(ctx, p));
    let bids = legal_next_bids(Some(p));
    let mut chances: Vec<Chance> = Vec::new();
    let mut i: usize = 0;
    while i < bids.len()
        invariant
            i <= bids@.len(),
            ctx.well_formed(),
            arcs@ == archs(ArchSet::WeOpen),
            arcs@.len() == 7,
            lists_next_bids(Some(p), bids@),
            f == (|b: Bid| dyn_bid_ev(ctx, b)),
            chances@.len() == i,
            forall|j: int| 0 <= j < i ==> chances@[j] == f(#[trigger] bids@[j]),
            forall|j: int| 0 <= j < i ==> proper(#[trigger] chances@[j]),
        decreases bids@.len() - i,
    {
        let b = bids[i];
        proof {
            assert(is_next_bid(Some(p), bids@[i as int]));
        }
        let row = signal_weights(ctx, b.face, tables);
        let hits = arch_weight_dyn(&row, &arcs, b, ctx.my_dice, ctx.dice_per_player);
        let n = total_weight(&row);
        let e = Chance { hits, total: 7 * n };
        proof {
            assert(e == dyn_bid_ev(ctx, b));
        }
        chances.push(e);
        i = i + 1;
    }
    if bids.len() == 0 {
        proof {
            assert forall|c: Bid| is_next_bid(Some(p), c) implies !ratio_lt(dyn_challenge_ev(ctx, p), f(c)) by {
                crate::liar_players::lemma_position(Some(p), bids@, c);
            }
        }
        return Move::Challenge;
    }
    let k = first_best_index(&chances);
    proof {
        lemma_first_best_is_least_best(f, Some(p), bids@, chances@, k as int);
    }
    if is_ratio_lt(ech, chances[k]) {
        proof {
            assert(is_next_bid(Some(p), bids@[k as int]));
            assert(chances@[k as int] == f(bids@[k as int]));
            assert(ratio_lt(dyn_challenge_ev(ctx, p), f(bids@[k as int])));
        }
        Move::Bid(bids[k])
    } else {
        proof {
            assert forall|c: Bid| is_next_bid(Some(p), c) implies !ratio_lt(dyn_challenge_ev(ctx, p), f(c)) by {
                let j = crate::liar_players::lemma_position(Some(p), bids@, c);
                assert(chances@[j] == f(bids@[j]));
                lemma_ratio_le_trans(chances@[j], chances@[k as int], ech);
            }
        }
        Move::Challenge
    }
}

/// The eleventh bot that first tries a face switch its own dice make true,
/// then the third bot's rule.
pub struct MyBotV11Aware {
    pub inner: MyBotV11,
}

impl MyBotV11Aware {
    /// The bot, drawing what it leaves to chance from `rng`.
    pub fn new(rng: StdRng) -> (r: Self)
        ensures
            r.inner.inner.fallback._rng == rng,
    {
        MyBotV11Aware { inner: MyBotV11::new(rng) }
    }
}

impl Strategy for MyBotV11Aware {
    fn name(&self) -> (r: &str)
        ensures
            r@ == "mybot-v11-aware"@,
    {
        "mybot-v11-aware"
    }

    fn pick(&mut self, ctx: &Context) -> (r: Move)
        ensures
            match spec_last_bid(ctx.history@) {
                None => v10_decision(ctx, r),
                Some(p) => match v11_branches(ctx, p) {
                    Some(m) => r == m,
                    None => match safe_switch(ctx, p) {
                        Some(m) => r == m,
                        None => v10_decision(ctx, r),
                    },
                },
            },
    {
        proof {
            lemma_ctx_facts(ctx);
        }
        let prev = match last_bid(ctx) {
            Some(p) => p,
            None => {
                return self.inner.pick(ctx);
            },
        };
        if let Some(m) = branch_move(ctx, prev, &self.inner.priors, &self.inner.inner.fallback.tables) {
            return m;
        }
        if let Some(m) = safe_switch_pick(ctx, prev, &self.inner.inner.fallback.tables) {
            return m;
        }
        self.inner.inner.pick(ctx)
    }
}

/// The eleventh bot that, when no branch applies, scores every raise against
/// each archetype's own way of answering.
pub struct MyBotV11AwareDyn {
    pub inner: MyBotV11,
}

impl MyBotV11AwareDyn {
    /// The bot, drawing what it leaves to chance from `rng`.
    pub fn new(rng: StdRng) -> (r: Self)
        ensures
            r.inner.inner.fallback._rng == rng,
    {
        MyBotV11AwareDyn { inner: MyBotV11::new(rng) }
    }
}

impl Strategy for MyBotV11AwareDyn {
    fn name(&self) -> (r: &str)
        ensures
            r@ == "mybot-v11-aware-dyn"@,
    {
        "mybot-v11-aware-dyn"
    }

    fn pick(&mut self, ctx: &Context) -> (r: Move)
        ensures
            match spec_last_bid(ctx.history@) {
                None => v10_decision(ctx, r),
                Some(p) => match v11_branches(ctx, p) {
                    Some(m) => r == m,
                    None => dyn_decision(ctx, p, r),
                },
            },
    {
        proof {
            lemma_ctx_facts(ctx);
        }
        let prev = match last_bid(ctx) {
            Some(p) => p,
            None => {
                return self.inner.pick(ctx);
            },
        };
        if let Some(m) = branch_move(ctx, prev, &self.inner.priors, &self.inner.inner.fallback.tables) {
            return m;
        }
        dyn_pick(ctx, prev, &self.inner.inner.fallback.tables)
    }
}

// ---------------------------------------------------------------- the twelfth bot

/// `e` is within 0.05 of the best expected win `best`.
pub open spec fn near_best(e: Chance, best: Chance) -> bool {
    20 * e.hits * best.total + e.total * best.total >= 20 * best.hits * e.total
}

/// `r` is the action of some entry within 0.05 of the best.
pub open spec fn sampled_from(evs: Seq<(Move, Chance)>, r: Move) -> bool {
    exists|j: int|
        0 <= j < evs.len() && near_best(#[trigger] evs[j].1, first_best(evs, evs.len() as int).1) && r == evs[j].0
}

/// Draws uniformly among the actions within 0.05 of the best; a challenge
/// when there is no action to draw from.
fn sample_near_best(evs: &Vec<(Move, Chance)>, rng: &mut StdRng) -> (r: Move)
    requires
        small_evs(evs@),
    ensures
        evs@.len() == 0 ==> r == Move::Challenge,
        evs@.len() > 0 ==> sampled_from(evs@, r),
{
    if evs.len() == 0 {
        return Move::Challenge;
    }
    let mut best = evs[0];
    let mut i: usize = 1;
    while i < evs.len()
        invariant
            1 <= i <= evs@.len(),
            best == first_best(evs@, i as int),
        decreases evs@.len() - i,
    {
        if is_ratio_lt(best.1, evs[i].1) {
            best = evs[i];
        }
        i = i + 1;
    }
    let b = best.1;
    proof {
        crate::belief_bots::lemma_first_best_member(evs@, evs@.len() as int);
    }
    let mut cands: Vec<Move> = Vec::new();
    let ghost mut picks: Seq<int> = Seq::empty();
    let mut j: usize = 0;
    while j < evs.len()
        invariant
            j <= evs@.len(),
            b == first_best(evs@, evs@.len() as int).1,
            small_evs(evs@),
            b.hits <= 0x4_0000_0000 && b.total <= 0x4_0000_0000,
            cands@.len() == picks.len(),
            (exists|k: int| 0 <= k < j && near_best(#[trigger] evs@[k].1, b)) ==> cands@.len() > 0,
            forall|k: int|
                0 <= k < picks.len() ==> 0 <= #[trigger] picks[k] < evs@.len() && near_best(evs@[picks[k]].1, b)
                    && cands@[k] == evs@[picks[k]].0,
        decreases evs@.len() - j,
    {
        let e = evs[j].1;
        proof {
            assert((e.hits as int) * (b.total as int) <= 0x4_0000_0000 * 0x4_0000_0000) by (nonlinear_arith)
                requires
                    e.hits <= 0x4_0000_0000,
                    b.total <= 0x4_0000_0000,
            ;
            assert((e.total as int) * (b.total as int) <= 0x4_0000_0000 * 0x4_0000_0000) by (nonlinear_arith)
                requires
                    e.total <= 0x4_0000_0000,
                    b.total <= 0x4_0000_0000,
            ;
            assert((b.hits as int) * (e.total as int) <= 0x4_0000_0000 * 0x4_0000_0000) by (nonlinear_arith)
                requires
                    b.hits <= 0x4_0000_0000,
                    e.total <= 0x4_0000_0000,
            ;
        }
        let x: u128 = (e.hits as u128) * (b.total as u128);
        let y: u128 = (e.total as u128) * (b.total as u128);
        let z: u128 = (b.hits as u128) * (e.total as u128);
        proof {
            assert(near_best(e, b) == (20 * x + y >= 20 * z)) by (nonlinear_arith)
                requires
                    x == e.hits * b.total,
                    y == e.total * b.total,
                    z == b.hits * e.total,
            ;
            assert(evs@[j as int].1 == e);
        }
        if 20 * x + y >= 20 * z {
            cands.push(evs[j].0);
            proof {
                picks = picks.push(j as int);
            }
        }
        j = j + 1;
    }
    proof {
        let i = choose|i: int| 0 <= i < evs@.len() && evs@[i] == first_best(evs@, evs@.len() as int);
        assert(near_best(evs@[i].1, b)) by (nonlinear_arith)
            requires
                evs@[i].1 == b,
        ;
    }
    let k = gen_index(rng, cands.len());
    proof {
        let jj = picks[k as int];
        assert(near_best(evs@[jj].1, b) && cands@[k as int] == evs@[jj].0);
    }
    cands[k]
}

/// The twelfth bot's decision: a random opening (1, f) with f in 2..=6; the
/// eleventh bot's branches with a random pick among near-best actions (the
/// sure face switch kept); else the third bot's rule with random ties.
pub open spec fn v12_decision(ctx: &Context, r: Move) -> bool {
    let h = ctx.history@;
    let me = ctx.my_id;
    match spec_last_bid(h) {
        None => r matches Move::Bid(b) && b.quantity == 1 && 2 <= b.face <= 6,
        Some(p) => {
            let hi = spec_detect_high_opening(h, me);
            let cc = spec_detect_copycat(h, me);
            if hi is Some && p.face == hi.unwrap().1 {
                match spec_try_face_switch_strong(ctx.my_dice@, p, hi.unwrap().1) {
                    Some(b) => r == Move::Bid(b),
                    None => sampled_from(high_open_evs(ctx, p, hi.unwrap().0, hi.unwrap().1), r),
                }
            } else if cc is Some && p.face == cc->0 {
                sampled_from(copycat_evs(ctx, p, cc->0), r)
            } else if p.face >= 2 && spec_detect_we_open_raises(h, me) is Some && !ev_below(
                first_best(we_open_evs(ctx, p), we_open_evs(ctx, p).len() as int).1,
                1,
                2,
            ) {
                sampled_from(we_open_evs(ctx, p), r)
            } else {
                v3_tiebreak_decision(ctx, r)
            }
        },
    }
}

/// The eleventh bot hardened against a simulating opponent: a random
/// opening, a random pick among near-best belief actions, and random ties in
/// the third bot's rule.
pub struct MyBotV12 {
    pub rng: StdRng,
    pub tables: FaceTables,
    pub priors: PriorTables,
}

impl MyBotV12 {
    /// The bot, drawing what it leaves to chance from `rng`.
    pub fn new(rng: StdRng) -> (r: Self)
        ensures
            r.rng == rng,
    {
        MyBotV12 { rng, tables: FaceTables::new(), priors: PriorTables::new() }
    }
}

impl Strategy for MyBotV12 {
    fn name(&self) -> (r: &str)
        ensures
            r@ == "mybot-v12"@,
    {
        "mybot-v12"
    }

    fn pick(&mut self, ctx: &Context) -> (r: Move)
        ensures
            v12_decision(ctx, r),
    {
        proof {
            lemma_ctx_facts(ctx);
        }
        let prev = match last_bid(ctx) {
            None => {
                let f = gen_range_inclusive_u32(&mut self.rng, 2, 6);
                return Move::Bid(Bid { quantity: 1, face: f });
            },
            Some(p) => p,
        };
        if let Some((open_q, open_f)) = detect_high_opening(ctx) {
            if prev.face == open_f {
                if let Some(b) = try_face_switch_strong(ctx.my_dice, prev, open_f) {
                    return Move::Bid(b);
                }
                let evs = high_open_evs_exec(ctx, prev, open_q, open_f, &self.priors, &self.tables);
                return sample_near_best(&evs, &mut self.rng);
            }
        }
        if let Some(open_f) = detect_copycat(ctx) {
            if prev.face == open_f {
                let evs = copycat_evs_exec(ctx, prev, open_f, &self.priors, &self.tables);
                return sample_near_best(&evs, &mut self.rng);
            }
        }
        if prev.face >= 2 && detect_we_open_raises(ctx).is_some() {
            let evs = we_open_evs_exec(ctx, prev, &self.priors, &self.tables);
            if select_action(&evs, Some((1, 2))).is_some() {
                return sample_near_best(&evs, &mut self.rng);
            }
        }
        v3_pick_random_tiebreak(ctx, &self.tables, &mut self.rng)
    }
}

// ---------------------------------------------------------------- the deployed bot

/// The deployed bot's decision: its branches when one applies, else its
/// mixture fallback (also when nothing has been bid).
pub open spec fn deployed_decision(ctx: &Context, r: Move) -> bool {
    match spec_last_bid(ctx.history@) {
        Some(p) => match v11_branches(ctx, p) {
            Some(m) => r == m,
            None => mixture_decision(ctx, r),
        },
        None => mixture_decision(ctx, r),
    }
}

/// The deployed bot: after an opening of three (with a raise) or more on the
/// last bid's face a sure face switch or the high-opener belief; against a
/// copycat the copycat belief; when the opponent keeps raising our opening
/// the belief over every archetype if confident; else the mixture fallback.
pub fn deployed_pick(ctx: &Context, priors: &PriorTables, faces: &FaceTables) -> (r: Move)
    requires
        ctx.well_formed(),
    ensures
        deployed_decision(ctx, r),
{
    match last_bid(ctx) {
        Some(p) => match branch_move(ctx, p, priors, faces) {
            Some(m) => m,
            None => mixture_pick(ctx, faces),
        },
        None => mixture_pick(ctx, faces),
    }
}

} // verus!
