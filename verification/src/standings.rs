//! Round-robin bookkeeping: what each player did against each other player,
//! and the standings those results add up to.
use vstd::prelude::*;

verus! {

/// How one player fared against another: games won, lost and tied, and the
/// sum over the games of its score minus the other's.
#[derive(Clone, Copy, Debug, PartialEq, Eq, Structural)]
pub struct PairResult {
    pub wins: u32,
    pub losses: u32,
    pub ties: u32,
    pub score_diff: i64,
}

/// No game played yet.
pub open spec fn no_games() -> PairResult {
    PairResult { wins: 0, losses: 0, ties: 0, score_diff: 0 }
}

/// `c` after a game in which this player scored `mine` and the other `theirs`.
pub open spec fn after_game(c: PairResult, mine: u32, theirs: u32) -> PairResult {
    PairResult {
        wins: if mine > theirs {
            (c.wins + 1) as u32
        } else {
            c.wins
        },
        losses: if mine < theirs {
            (c.losses + 1) as u32
        } else {
            c.losses
        },
        ties: if mine == theirs {
            (c.ties + 1) as u32
        } else {
            c.ties
        },
        score_diff: (c.score_diff + mine - theirs) as i64,
    }
}

/// Recording that game in `c` overflows none of its counters.
pub open spec fn game_fits(c: PairResult, mine: u32, theirs: u32) -> bool {
    &&& mine > theirs ==> c.wins < u32::MAX
    &&& mine < theirs ==> c.losses < u32::MAX
    &&& mine == theirs ==> c.ties < u32::MAX
    &&& i64::MIN <= c.score_diff + mine - theirs <= i64::MAX
}

/// `c` after a round this player won, or lost.
pub open spec fn after_round(c: PairResult, won: bool) -> PairResult {
    PairResult {
        wins: if won {
            (c.wins + 1) as u32
        } else {
            c.wins
        },
        losses: if won {
            c.losses
        } else {
            (c.losses + 1) as u32
        },
        ties: c.ties,
        score_diff: c.score_diff,
    }
}

/// Recording that round in `c` overflows neither counter.
pub open spec fn round_fits(c: PairResult, won: bool) -> bool {
    &&& won ==> c.wins < u32::MAX
    &&& !won ==> c.losses < u32::MAX
}

/// One line of the standings: a player (by its place in the table) and its
/// totals over all its opponents.
#[derive(Clone, Copy, Debug, PartialEq, Eq, Structural)]
pub struct Standing {
    pub idx: usize,
    pub wins: u32,
    pub losses: u32,
    pub ties: u32,
    pub score_diff: i64,
}

/// `a` stands above `b`: more wins, then a larger score difference, then the
/// player listed first.
pub open spec fn stands_above(a: Standing, b: Standing) -> bool {
    ||| a.wins > b.wins
    ||| a.wins == b.wins && a.score_diff > b.score_diff
    ||| a.wins == b.wins && a.score_diff == b.score_diff && a.idx < b.idx
}

/// Player `i` has a line among `rows`.
pub open spec fn listed(rows: Seq<Standing>, i: int) -> bool {
    exists|k: int| 0 <= k < rows.len() && (#[trigger] rows[k]).idx == i
}

/// Sums of wins, losses, ties and score differences that fit the counters.
pub open spec fn fits(t: (int, int, int, int)) -> bool {
    &&& t.0 <= u32::MAX
    &&& t.1 <= u32::MAX
    &&& t.2 <= u32::MAX
    &&& i64::MIN <= t.3 <= i64::MAX
}

fn game_result(c: PairResult, mine: u32, theirs: u32) -> (r: PairResult)
    requires
        game_fits(c, mine, theirs),
    ensures
        r == after_game(c, mine, theirs),
{
    let d: i64 = mine as i64 - theirs as i64;
    PairResult {
        wins: if mine > theirs {
            c.wins + 1
        } else {
            c.wins
        },
        losses: if mine < theirs {
            c.losses + 1
        } else {
            c.losses
        },
        ties: if mine == theirs {
            c.ties + 1
        } else {
            c.ties
        },
        score_diff: c.score_diff + d,
    }
}

fn round_result(c: PairResult, won: bool) -> (r: PairResult)
    requires
        round_fits(c, won),
    ensures
        r == after_round(c, won),
{
    if won {
        PairResult { wins: c.wins + 1, losses: c.losses, ties: c.ties, score_diff: c.score_diff }
    } else {
        PairResult { wins: c.wins, losses: c.losses + 1, ties: c.ties, score_diff: c.score_diff }
    }
}

fn above(a: &Standing, b: &Standing) -> (r: bool)
    ensures
        r == stands_above(*a, *b),
{
    a.wins > b.wins || (a.wins == b.wins && a.score_diff > b.score_diff) || (a.wins == b.wins
        && a.score_diff == b.score_diff && a.idx < b.idx)
}

proof fn lemma_index(n: int, i: int, j: int)
    requires
        0 <= i < n,
        0 <= j < n,
    ensures
        0 <= i * n + j < n * n,
{
    assert(0 <= i * n) by (nonlinear_arith)
        requires
            0 <= i,
            0 <= n,
    ;
    assert(i * n + n <= n * n) by (nonlinear_arith)
        requires
            0 <= i < n,
    ;
}

proof fn lemma_index_distinct(n: int, i1: int, j1: int, i2: int, j2: int)
    requires
        0 <= i1 < n,
        0 <= j1 < n,
        0 <= i2 < n,
        0 <= j2 < n,
        i1 * n + j1 == i2 * n + j2,
    ensures
        i1 == i2,
        j1 == j2,
{
    if i1 < i2 {
        assert(i1 * n + n <= i2 * n) by (nonlinear_arith)
            requires
                i1 < i2,
                0 <= n,
        ;
    } else if i2 < i1 {
        assert(i2 * n + n <= i1 * n) by (nonlinear_arith)
            requires
                i2 < i1,
                0 <= n,
        ;
    }
}

/// The results of every ordered pair of `n` players, row against column.
pub struct Table {
    n: usize,
    cells: Vec<PairResult>,
}

impl Table {
    #[verifier::type_invariant]
    spec fn square(self) -> bool {
        self.cells@.len() == self.n * self.n
    }

    /// The number of players.
    pub closed spec fn size(self) -> nat {
        self.n as nat
    }

    /// How player `i` fared against player `j`.
    pub closed spec fn cell(self, i: int, j: int) -> PairResult {
        self.cells@[i * self.n + j]
    }

    /// Player `i`'s totals over its opponents `0..m`.
    pub open spec fn partial(self, i: int, m: int) -> (int, int, int, int)
        decreases m,
    {
        if m <= 0 {
            (0, 0, 0, 0)
        } else {
            let p = self.partial(i, m - 1);
            if m - 1 == i {
                p
            } else {
                let c = self.cell(i, m - 1);
                (p.0 + c.wins, p.1 + c.losses, p.2 + c.ties, p.3 + c.score_diff)
            }
        }
    }

    /// Player `i`'s line of the standings.
    pub open spec fn standing_of(self, i: int) -> Standing {
        let t = self.partial(i, self.size() as int);
        Standing { idx: i as usize, wins: t.0 as u32, losses: t.1 as u32, ties: t.2 as u32, score_diff: t.3 as i64 }
    }

    /// Each result is the mirror of the other side's: a win of one player
    /// against another is a loss of the other, ties and score differences
    /// match, and nobody has played itself.
    pub open spec fn mirrored(self) -> bool {
        &&& forall|i: int, j: int|
            0 <= i < self.size() && 0 <= j < self.size() ==> {
                let c = #[trigger] self.cell(i, j);
                let d = self.cell(j, i);
                c.wins == d.losses && c.ties == d.ties && c.score_diff == -d.score_diff
            }
        &&& forall|i: int| 0 <= i < self.size() ==> #[trigger] self.cell(i, i) == no_games()
    }

    /// Every running total of every player fits its counter.
    pub open spec fn sums_fit(self) -> bool {
        forall|i: int, m: int| 0 <= i < self.size() && 0 <= m <= self.size() ==> #[trigger] fits(self.partial(i, m))
    }

    /// A table of `n` players who have played no game.
    pub fn new(n: usize) -> (t: Table)
        requires
            n * n <= usize::MAX,
        ensures
            t.size() == n,
            forall|i: int, j: int| 0 <= i < n && 0 <= j < n ==> #[trigger] t.cell(i, j) == no_games(),
            t.mirrored(),
    {
        let total = n * n;
        let mut cells: Vec<PairResult> = Vec::new();
        let mut k: usize = 0;
        while k < total
            invariant
                k <= total,
                total == n * n,
                cells@.len() == k,
                forall|m: int| 0 <= m < k ==> #[trigger] cells@[m] == no_games(),
            decreases total - k,
        {
            cells.push(PairResult { wins: 0, losses: 0, ties: 0, score_diff: 0 });
            k = k + 1;
        }
        let t = Table { n, cells };
        proof {
            assert forall|i: int, j: int| 0 <= i < n && 0 <= j < n implies #[trigger] t.cell(i, j) == no_games() by {
                lemma_index(n as int, i, j);
            }
        }
        t
    }

    /// The number of players.
    pub fn players(&self) -> (r: usize)
        ensures
            r == self.size(),
    {
        self.n
    }

    /// How player `i` fared against player `j`.
    pub fn get(&self, i: usize, j: usize) -> (r: PairResult)
        requires
            i < self.size(),
            j < self.size(),
        ensures
            r == self.cell(i as int, j as int),
    {
        proof {
            use_type_invariant(self);
            lemma_index(self.n as int, i as int, j as int);
            assert(self.cells@.len() == self.cells.len());
        }
        self.cells[i * self.n + j]
    }

    /// Whether a game of players `i` and `j` scoring `a_score` and `b_score`
    /// can be recorded without a counter overflowing.
    pub fn can_record_game(&self, i: usize, j: usize, a_score: u32, b_score: u32) -> (r: bool)
        requires
            i < self.size(),
            j < self.size(),
        ensures
            r == (game_fits(self.cell(i as int, j as int), a_score, b_score) && game_fits(
                self.cell(j as int, i as int),
                b_score,
                a_score,
            )),
    {
        let c1 = self.get(i, j);
        let c2 = self.get(j, i);
        fits_game(&c1, a_score, b_score) && fits_game(&c2, b_score, a_score)
    }

    /// Whether a round of players `i` and `j` can be recorded without a
    /// counter overflowing.
    pub fn can_record_round(&self, i: usize, j: usize, i_won: bool) -> (r: bool)
        requires
            i < self.size(),
            j < self.size(),
        ensures
            r == (round_fits(self.cell(i as int, j as int), i_won) && round_fits(
                self.cell(j as int, i as int),
                !i_won,
            )),
    {
        let c1 = self.get(i, j);
        let c2 = self.get(j, i);
        let f1 = if i_won {
            c1.wins < u32::MAX
        } else {
            c1.losses < u32::MAX
        };
        let f2 = if i_won {
            c2.losses < u32::MAX
        } else {
            c2.wins < u32::MAX
        };
        f1 && f2
    }

    /// Records a game in which player `i` scored `a_score` and player `j`
    /// scored `b_score`: each gains a win, a loss or a tie against the
    /// other, and the difference of the scores.
    pub fn record_game(&mut self, i: usize, j: usize, a_score: u32, b_score: u32)
        requires
            i < j < old(self).size(),
            game_fits(old(self).cell(i as int, j as int), a_score, b_score),
            game_fits(old(self).cell(j as int, i as int), b_score, a_score),
        ensures
            final(self).size() == old(self).size(),
            final(self).cell(i as int, j as int) == after_game(old(self).cell(i as int, j as int), a_score, b_score),
            final(self).cell(j as int, i as int) == after_game(old(self).cell(j as int, i as int), b_score, a_score),
            forall|x: int, y: int|
                0 <= x < old(self).size() && 0 <= y < old(self).size() && !(x == i && y == j) && !(x == j && y
                    == i) ==> #[trigger] final(self).cell(x, y) == old(self).cell(x, y),
            old(self).mirrored() ==> final(self).mirrored(),
    {
        proof {
            use_type_invariant(&*self);
            lemma_index(self.n as int, i as int, j as int);
            lemma_index(self.n as int, j as int, i as int);
            assert(self.cells@.len() == self.cells.len());
        }
        let ghost before = *self;
        let k1 = i * self.n + j;
        let k2 = j * self.n + i;
        let c1 = self.cells[k1];
        let c2 = self.cells[k2];
        self.cells[k1] = game_result(c1, a_score, b_score);
        self.cells[k2] = game_result(c2, b_score, a_score);
        proof {
            assert(k1 != k2) by {
                if k1 == k2 {
                    lemma_index_distinct(self.n as int, i as int, j as int, j as int, i as int);
                }
            }
            let n = self.n as int;
            assert forall|x: int, y: int|
                0 <= x < n && 0 <= y < n && !(x == i && y == j) && !(x == j && y == i) implies #[trigger] self.cell(
                x,
                y,
            ) == before.cell(x, y) by {
                lemma_index(n, x, y);
                if x * n + y == k1 {
                    lemma_index_distinct(n, x, y, i as int, j as int);
                }
                if x * n + y == k2 {
                    lemma_index_distinct(n, x, y, j as int, i as int);
                }
            }
        }
    }

    /// Records a round between players `i` and `j` that `i` won or lost: the
    /// winner gains a win against the loser, the loser a loss.
    pub fn record_round(&mut self, i: usize, j: usize, i_won: bool)
        requires
            i < j < old(self).size(),
            round_fits(old(self).cell(i as int, j as int), i_won),
            round_fits(old(self).cell(j as int, i as int), !i_won),
        ensures
            final(self).size() == old(self).size(),
            final(self).cell(i as int, j as int) == after_round(old(self).cell(i as int, j as int), i_won),
            final(self).cell(j as int, i as int) == after_round(old(self).cell(j as int, i as int), !i_won),
            forall|x: int, y: int|
                0 <= x < old(self).size() && 0 <= y < old(self).size() && !(x == i && y == j) && !(x == j && y
                    == i) ==> #[trigger] final(self).cell(x, y) == old(self).cell(x, y),
            old(self).mirrored() ==> final(self).mirrored(),
    {
        proof {
            use_type_invariant(&*self);
            lemma_index(self.n as int, i as int, j as int);
            lemma_index(self.n as int, j as int, i as int);
            assert(self.cells@.len() == self.cells.len());
        }
        let ghost before = *self;
        let k1 = i * self.n + j;
        let k2 = j * self.n + i;
        let c1 = self.cells[k1];
        let c2 = self.cells[k2];
        self.cells[k1] = round_result(c1, i_won);
        self.cells[k2] = round_result(c2, !i_won);
        proof {
            assert(k1 != k2) by {
                if k1 == k2 {
                    lemma_index_distinct(self.n as int, i as int, j as int, j as int, i as int);
                }
            }
            let n = self.n as int;
            assert forall|x: int, y: int|
                0 <= x < n && 0 <= y < n && !(x == i && y == j) && !(x == j && y == i) implies #[trigger] self.cell(
                x,
                y,
            ) == before.cell(x, y) by {
                lemma_index(n, x, y);
                if x * n + y == k1 {
                    lemma_index_distinct(n, x, y, i as int, j as int);
                }
                if x * n + y == k2 {
                    lemma_index_distinct(n, x, y, j as int, i as int);
                }
            }
        }
    }

    /// Whether every running total of every player fits its counter, so that
    /// the standings can be added up.
    pub fn sums_in_range(&self) -> (r: bool)
        ensures
            r == self.sums_fit(),
    {
        let n = self.n;
        let mut i: usize = 0;
        while i < n
            invariant
                i <= n,
                n == self.size(),
                forall|x: int, m: int| 0 <= x < i && 0 <= m <= n ==> #[trigger] fits(self.partial(x, m)),
            decreases n - i,
        {
            let mut w: u64 = 0;
            let mut l: u64 = 0;
            let mut t: u64 = 0;
            let mut sd: i128 = 0;
            let mut j: usize = 0;
            while j < n
                invariant
                    i < n,
                    j <= n,
                    n == self.size(),
                    (w as int, l as int, t as int, sd as int) == self.partial(i as int, j as int),
                    forall|m: int| 0 <= m <= j ==> #[trigger] fits(self.partial(i as int, m)),
                decreases n - j,
            {
                proof {
                    assert(fits(self.partial(i as int, j as int)));
                }
                if j != i {
                    let c = self.get(i, j);
                    w = w + c.wins as u64;
                    l = l + c.losses as u64;
                    t = t + c.ties as u64;
                    sd = sd + c.score_diff as i128;
                }
                if w > u32::MAX as u64 || l > u32::MAX as u64 || t > u32::MAX as u64 || sd > i64::MAX as i128 || sd
                    < i64::MIN as i128 {
                    proof {
                        assert(!fits(self.partial(i as int, j + 1)));
                    }
                    return false;
                }
                j = j + 1;
            }
            i = i + 1;
        }
        true
    }

    /// Player `i`'s totals over its opponents.
    fn row_standing(&self, i: usize) -> (r: Standing)
        requires
            i < self.size(),
            self.sums_fit(),
        ensures
            r == self.standing_of(i as int),
    {
        let n = self.n;
        let mut w: u32 = 0;
        let mut l: u32 = 0;
        let mut t: u32 = 0;
        let mut sd: i64 = 0;
        let mut j: usize = 0;
        while j < n
            invariant
                i < n,
                j <= n,
                n == self.size(),
                self.sums_fit(),
                (w as int, l as int, t as int, sd as int) == self.partial(i as int, j as int),
            decreases n - j,
        {
            if j != i {
                let c = self.get(i, j);
                proof {
                    assert(fits(self.partial(i as int, j + 1)));
                }
                w = w + c.wins;
                l = l + c.losses;
                t = t + c.ties;
                sd = sd + c.score_diff;
            }
            j = j + 1;
        }
        Standing { idx: i, wins: w, losses: l, ties: t, score_diff: sd }
    }

    /// The standings: every player's totals, from the one that stands highest
    /// (most wins, then the largest score difference, then listed first).
    pub fn standings(&self) -> (out: Vec<Standing>)
        requires
            self.sums_fit(),
        ensures
            out@.len() == self.size(),
            forall|k: int|
                0 <= k < out@.len() ==> (#[trigger] out@[k]).idx < self.size() && out@[k] == self.standing_of(
                    out@[k].idx as int,
                ),
            forall|a: int, b: int| 0 <= a < b < out@.len() ==> stands_above(#[trigger] out@[a], #[trigger] out@[b]),
            forall|i: int| 0 <= i < self.size() ==> #[trigger] listed(out@, i),
    {
        let n = self.n;
        let mut out: Vec<Standing> = Vec::new();
        let mut i: usize = 0;
        while i < n
            invariant
                i <= n,
                n == self.size(),
                self.sums_fit(),
                out@.len() == i,
                forall|k: int|
                    0 <= k < out@.len() ==> (#[trigger] out@[k]).idx < i && out@[k] == self.standing_of(
                        out@[k].idx as int,
                    ),
                forall|a: int, b: int| 0 <= a < b < out@.len() ==> stands_above(#[trigger] out@[a], #[trigger] out@[b]),
                forall|m: int| 0 <= m < i ==> #[trigger] listed(out@, m),
            decreases n - i,
        {
            let s = self.row_standing(i);
            let mut p: usize = 0;
            while p < out.len() && !above(&s, &out[p])
                invariant
                    p <= out@.len(),
                    forall|q: int| 0 <= q < p ==> !stands_above(s, #[trigger] out@[q]),
                decreases out@.len() - p,
            {
                p = p + 1;
            }
            let ghost old_out = out@;
            out.insert(p, s);
            proof {
                assert forall|a: int, b: int| 0 <= a < b < out@.len() implies stands_above(
                    #[trigger] out@[a],
                    #[trigger] out@[b],
                ) by {
                    if b < p {
                        assert(out@[a] == old_out[a] && out@[b] == old_out[b]);
                    } else if b == p {
                        assert(out@[a] == old_out[a]);
                        assert(!stands_above(s, old_out[a]));
                    } else if a == p {
                        assert(out@[b] == old_out[b - 1]);
                        assert(stands_above(s, old_out[p as int]));
                        if b - 1 > p {
                            assert(stands_above(old_out[p as int], old_out[b - 1]));
                        }
                    } else if a < p {
                        assert(out@[a] == old_out[a] && out@[b] == old_out[b - 1]);
                    } else {
                        assert(out@[a] == old_out[a - 1] && out@[b] == old_out[b - 1]);
                    }
                }
                assert forall|m: int| 0 <= m < i + 1 implies #[trigger] listed(out@, m) by {
                    if m == i {
                        assert(out@[p as int].idx == m);
                    } else {
                        assert(listed(old_out, m));
                        let k = choose|k: int| 0 <= k < old_out.len() && (#[trigger] old_out[k]).idx == m;
                        if k < p {
                            assert(out@[k].idx == m);
                        } else {
                            assert(out@[k + 1].idx == m);
                        }
                    }
                }
            }
            i = i + 1;
        }
        out
    }
}

fn fits_game(c: &PairResult, mine: u32, theirs: u32) -> (r: bool)
    ensures
        r == game_fits(*c, mine, theirs),
{
    let counter_ok = if mine > theirs {
        c.wins < u32::MAX
    } else if mine < theirs {
        c.losses < u32::MAX
    } else {
        c.ties < u32::MAX
    };
    let d: i64 = mine as i64 - theirs as i64;
    let diff_ok = if d >= 0 {
        c.score_diff <= i64::MAX - d
    } else {
        c.score_diff >= i64::MIN - d
    };
    counter_ok && diff_ok
}

} // verus!
