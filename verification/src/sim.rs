//! Box scores of simulated games.
//!
//! The possession-by-possession simulator itself (driven by real-valued
//! probabilities) runs in the application layer; this module holds the box
//! score it produces and the integer bookkeeping around it: team totals, the
//! overtime bucket that breaks a tie, and folding a game into season totals.

use vstd::prelude::*;
use crate::player::{stat, n_stats, SeasonStats};
use crate::types::{PlayerId, TeamId};

verus! {

/// One player's line in a single game.
#[derive(Debug, Clone, Copy)]
pub struct PlayerLine {
    pub player_id: PlayerId,
    pub min: u32,
    pub pts: u32,
    pub fgm: u32,
    pub fga: u32,
    pub tpm: u32,
    pub tpa: u32,
    pub ftm: u32,
    pub fta: u32,
    pub oreb: u32,
    pub dreb: u32,
    pub ast: u32,
    pub stl: u32,
    pub blk: u32,
    pub tov: u32,
}

/// One team's side of a box score.
#[derive(Debug, Clone)]
pub struct TeamBox {
    pub team_id: TeamId,
    pub score: u32,
    pub lines: Vec<PlayerLine>,
}

/// A fully simulated game.
#[derive(Debug, Clone)]
pub struct GameSim {
    pub home: TeamBox,
    pub away: TeamBox,
}

impl GameSim {
    pub fn home_won(&self) -> (b: bool)
        ensures
            b == (self.home.score > self.away.score),
    {
        self.home.score > self.away.score
    }
}

/// A single play-by-play entry for the live "simcast" view, carrying full box
/// snapshots.
#[derive(Debug, Clone)]
pub struct PlayEvent {
    pub quarter: u8,
    pub clock: String,
    /// The team that had the ball.
    pub team_id: TeamId,
    pub text: String,
    /// Whether the possession scored (for highlighting).
    pub scored: bool,
    pub home_score: u32,
    pub away_score: u32,
    /// Box scores as of this event.
    pub home_box: Vec<PlayerLine>,
    pub away_box: Vec<PlayerLine>,
}

/// Total points of a run of lines.
pub open spec fn sum_pts(s: Seq<PlayerLine>) -> int
    decreases s.len(),
{
    if s.len() == 0 { 0 } else { sum_pts(s.drop_last()) + s.last().pts }
}

/// Total field goals made of a run of lines.
pub open spec fn sum_fgm(s: Seq<PlayerLine>) -> int
    decreases s.len(),
{
    if s.len() == 0 { 0 } else { sum_fgm(s.drop_last()) + s.last().fgm }
}

/// The line with the most field-goal attempts (the last such line on ties).
pub open spec fn top_fga_index(s: Seq<PlayerLine>) -> int
    decreases s.len(),
{
    if s.len() <= 1 {
        0
    } else {
        let j = top_fga_index(s.drop_last());
        if s.last().fga >= s[j].fga { s.len() - 1 } else { j }
    }
}

/// A line credited with one more two-point basket.
pub open spec fn with_bucket(l: PlayerLine) -> PlayerLine {
    PlayerLine { pts: (l.pts + 2) as u32, fgm: (l.fgm + 1) as u32, fga: (l.fga + 1) as u32, ..l }
}

/// Room for one more basket on every line.
pub open spec fn bucket_fits(s: Seq<PlayerLine>) -> bool {
    &&& forall|i: int| 0 <= i < s.len() ==> #[trigger] s[i].pts + 2 <= u32::MAX
        && s[i].fgm + 1 <= u32::MAX && s[i].fga + 1 <= u32::MAX
    &&& sum_pts(s) + 2 <= u32::MAX
}

proof fn lemma_top_fga_index(s: Seq<PlayerLine>)
    ensures
        s.len() > 0 ==> 0 <= top_fga_index(s) < s.len(),
        forall|i: int| 0 <= i < s.len() ==> (#[trigger] s[i]).fga <= s[top_fga_index(s)].fga,
    decreases s.len(),
{
    if s.len() > 1 {
        let t = s.drop_last();
        lemma_top_fga_index(t);
        let j = top_fga_index(t);
        assert(t[j] == s[j]);
        assert forall|i: int| 0 <= i < s.len() implies (#[trigger] s[i]).fga <= s[top_fga_index(s)].fga by {
            if i < s.len() - 1 {
                assert(t[i] == s[i]);
            }
        }
    }
}

proof fn lemma_sum_pts_update(s: Seq<PlayerLine>, i: int, l: PlayerLine)
    requires
        0 <= i < s.len(),
    ensures
        sum_pts(s.update(i, l)) == sum_pts(s) - s[i].pts + l.pts,
    decreases s.len(),
{
    if i < s.len() - 1 {
        lemma_sum_pts_update(s.drop_last(), i, l);
        assert(s.update(i, l).drop_last() =~= s.drop_last().update(i, l));
    } else {
        assert(s.update(i, l).drop_last() =~= s.drop_last());
    }
}

proof fn lemma_sum_pts_nonneg(s: Seq<PlayerLine>)
    ensures
        sum_pts(s) >= 0,
        forall|i: int| 0 <= i < s.len() ==> s[i].pts <= sum_pts(s),
    decreases s.len(),
{
    if s.len() > 0 {
        let t = s.drop_last();
        lemma_sum_pts_nonneg(t);
        assert forall|i: int| 0 <= i < s.len() implies s[i].pts <= sum_pts(s) by {
            if i < s.len() - 1 {
                assert(t[i] == s[i]);
            }
        }
    }
}

/// Add up a run of lines' points.
fn total_points(lines: &Vec<PlayerLine>) -> (t: u32)
    requires
        sum_pts(lines@) <= u32::MAX,
    ensures
        t == sum_pts(lines@),
{
    let mut t: u32 = 0;
    let mut i: usize = 0;
    while i < lines.len()
        invariant
            i <= lines@.len(),
            sum_pts(lines@) <= u32::MAX,
            t == sum_pts(lines@.take(i as int)),
        decreases lines@.len() - i,
    {
        proof {
            assert(lines@.take(i as int + 1).drop_last() =~= lines@.take(i as int));
            lemma_sum_prefix_pts(lines@, i as int + 1);
        }
        t = t + lines[i].pts;
        i = i + 1;
    }
    assert(lines@.take(i as int) =~= lines@);
    t
}

proof fn lemma_sum_prefix_pts(s: Seq<PlayerLine>, i: int)
    requires
        0 <= i <= s.len(),
    ensures
        sum_pts(s.take(i)) <= sum_pts(s),
    decreases s.len() - i,
{
    if i < s.len() {
        lemma_sum_prefix_pts(s, i + 1);
        assert(s.take(i + 1).drop_last() =~= s.take(i));
        lemma_sum_pts_nonneg(s.take(i + 1));
        assert(s.take(i + 1)[i] == s[i]);
    } else {
        assert(s.take(i) =~= s);
    }
}

proof fn lemma_sum_prefix_fgm(s: Seq<PlayerLine>, i: int)
    requires
        0 <= i <= s.len(),
    ensures
        sum_fgm(s.take(i)) <= sum_fgm(s),
    decreases s.len() - i,
{
    if i < s.len() {
        lemma_sum_prefix_fgm(s, i + 1);
        assert(s.take(i + 1).drop_last() =~= s.take(i));
    } else {
        assert(s.take(i) =~= s);
    }
}

/// Add up a run of lines' made field goals.
fn total_fgm(lines: &Vec<PlayerLine>) -> (t: u32)
    requires
        sum_fgm(lines@) <= u32::MAX,
    ensures
        t == sum_fgm(lines@),
{
    let mut t: u32 = 0;
    let mut i: usize = 0;
    while i < lines.len()
        invariant
            i <= lines@.len(),
            sum_fgm(lines@) <= u32::MAX,
            t == sum_fgm(lines@.take(i as int)),
        decreases lines@.len() - i,
    {
        proof {
            assert(lines@.take(i as int + 1).drop_last() =~= lines@.take(i as int));
            lemma_sum_prefix_fgm(lines@, i as int + 1);
        }
        t = t + lines[i].fgm;
        i = i + 1;
    }
    assert(lines@.take(i as int) =~= lines@);
    t
}

/// Close out one side of a game: its score is the sum of its lines' points.
pub fn finalize(team_id: TeamId, lines: Vec<PlayerLine>) -> (tb: TeamBox)
    requires
        sum_pts(lines@) <= u32::MAX,
    ensures
        tb.team_id == team_id,
        tb.lines@ == lines@,
        tb.score == sum_pts(lines@),
{
    let score = total_points(&lines);
    TeamBox { team_id, score, lines }
}

/// Credit the side's highest-volume shooter (the last one, on ties) with one
/// more two-point basket, and re-total the score.
pub fn bump_score(tb: &mut TeamBox)
    requires
        bucket_fits(old(tb).lines@),
    ensures
        final(tb).team_id == old(tb).team_id,
        old(tb).lines@.len() == 0 ==> final(tb).lines@ == old(tb).lines@,
        old(tb).lines@.len() > 0 ==> final(tb).lines@ == old(tb).lines@.update(
            top_fga_index(old(tb).lines@),
            with_bucket(old(tb).lines@[top_fga_index(old(tb).lines@)]),
        ),
        final(tb).score == sum_pts(final(tb).lines@),
{
    let n = tb.lines.len();
    if n > 0 {
        // The last line with the most attempts.
        let mut best: usize = 0;
        let mut i: usize = 1;
        while i < n
            invariant
                n == tb.lines@.len(),
                n > 0,
                1 <= i <= n,
                best == top_fga_index(tb.lines@.take(i as int)),
                best < i,
            decreases n - i,
        {
            proof {
                assert(tb.lines@.take(i as int + 1).drop_last() =~= tb.lines@.take(i as int));
                lemma_top_fga_index(tb.lines@.take(i as int));
            }
            if tb.lines[i].fga >= tb.lines[best].fga {
                best = i;
            }
            i = i + 1;
        }
        assert(tb.lines@.take(n as int) =~= tb.lines@);
        let mut l = tb.lines[best];
        l.pts = l.pts + 2;
        l.fgm = l.fgm + 1;
        l.fga = l.fga + 1;
        proof {
            lemma_sum_pts_update(tb.lines@, best as int, l);
            lemma_sum_pts_nonneg(tb.lines@);
        }
        tb.lines.set(best, l);
    }
    proof {
        lemma_sum_pts_nonneg(tb.lines@);
    }
    tb.score = total_points(&tb.lines);
}

/// Settle a tied game: the better-shooting side (more made field goals; the
/// home side when level) gets an overtime bucket. Returns whether the home
/// side got it, or `None` if the game was not tied.
pub fn break_tie(game: &mut GameSim) -> (home_ot: Option<bool>)
    requires
        bucket_fits(old(game).home.lines@),
        bucket_fits(old(game).away.lines@),
        sum_fgm(old(game).home.lines@) <= u32::MAX,
        sum_fgm(old(game).away.lines@) <= u32::MAX,
    ensures
        old(game).home.score != old(game).away.score ==> home_ot is None && *final(game) == *old(game),
        old(game).home.score == old(game).away.score ==> home_ot == Some(
            sum_fgm(old(game).home.lines@) >= sum_fgm(old(game).away.lines@),
        ),
        home_ot == Some(true) ==> {
            &&& final(game).away == old(game).away
            &&& final(game).home.team_id == old(game).home.team_id
            &&& final(game).home.lines@ == (if old(game).home.lines@.len() == 0 { old(game).home.lines@ } else {
                old(game).home.lines@.update(top_fga_index(old(game).home.lines@),
                    with_bucket(old(game).home.lines@[top_fga_index(old(game).home.lines@)])) })
            &&& final(game).home.score == sum_pts(final(game).home.lines@)
        },
        home_ot == Some(false) ==> {
            &&& final(game).home == old(game).home
            &&& final(game).away.team_id == old(game).away.team_id
            &&& final(game).away.lines@ == (if old(game).away.lines@.len() == 0 { old(game).away.lines@ } else {
                old(game).away.lines@.update(top_fga_index(old(game).away.lines@),
                    with_bucket(old(game).away.lines@[top_fga_index(old(game).away.lines@)])) })
            &&& final(game).away.score == sum_pts(final(game).away.lines@)
        },
{
    if game.home.score != game.away.score {
        return None;
    }
    let hf = total_fgm(&game.home.lines);
    let af = total_fgm(&game.away.lines);
    let home_ot = hf >= af;
    if home_ot {
        bump_score(&mut game.home);
    } else {
        bump_score(&mut game.away);
    }
    Some(home_ot)
}

/// After the tie-break, a game whose scores were the totals of its lines and
/// whose sides both fielded players can no longer be level.
pub proof fn lemma_no_ties_after_break(old_game: GameSim, new_game: GameSim, home_ot: Option<bool>)
    requires
        old_game.home.score == sum_pts(old_game.home.lines@),
        old_game.away.score == sum_pts(old_game.away.lines@),
        old_game.home.lines@.len() > 0,
        old_game.away.lines@.len() > 0,
        bucket_fits(old_game.home.lines@),
        bucket_fits(old_game.away.lines@),
        old_game.home.score == old_game.away.score ==> home_ot is Some,
        old_game.home.score != old_game.away.score ==> new_game == old_game,
        home_ot == Some(true) ==> new_game.away == old_game.away && new_game.home.lines@
            == old_game.home.lines@.update(top_fga_index(old_game.home.lines@),
                with_bucket(old_game.home.lines@[top_fga_index(old_game.home.lines@)]))
            && new_game.home.score == sum_pts(new_game.home.lines@),
        home_ot == Some(false) ==> new_game.home == old_game.home && new_game.away.lines@
            == old_game.away.lines@.update(top_fga_index(old_game.away.lines@),
                with_bucket(old_game.away.lines@[top_fga_index(old_game.away.lines@)]))
            && new_game.away.score == sum_pts(new_game.away.lines@),
    ensures
        new_game.home.score != new_game.away.score,
{
    if old_game.home.score == old_game.away.score {
        lemma_top_fga_index(old_game.home.lines@);
        lemma_top_fga_index(old_game.away.lines@);
        let h = old_game.home.lines@;
        let a = old_game.away.lines@;
        let ih = top_fga_index(h);
        let ia = top_fga_index(a);
        assert(h[ih].pts + 2 <= u32::MAX);
        assert(a[ia].pts + 2 <= u32::MAX);
        if home_ot == Some(true) {
            lemma_sum_pts_update(h, ih, with_bucket(h[ih]));
            assert(new_game.home.score == old_game.home.score + 2);
        } else {
            assert(home_ot == Some(false));
            assert(new_game.away.lines@ == a.update(ia, with_bucket(a[ia])));
            lemma_sum_pts_update(a, ia, with_bucket(a[ia]));
            assert(sum_pts(new_game.away.lines@) == sum_pts(a) + 2);
            assert(new_game.away.score == old_game.away.score + 2);
        }
    }
}

/// What a game line adds to a season total, stat by stat (a game played, then
/// the counting stats).
pub open spec fn line_stat(l: PlayerLine, k: int) -> int {
    if k == 0 { 1 }
    else if k == 1 { l.min as int }
    else if k == 2 { l.pts as int }
    else if k == 3 { l.fgm as int }
    else if k == 4 { l.fga as int }
    else if k == 5 { l.tpm as int }
    else if k == 6 { l.tpa as int }
    else if k == 7 { l.ftm as int }
    else if k == 8 { l.fta as int }
    else if k == 9 { l.oreb as int }
    else if k == 10 { l.dreb as int }
    else if k == 11 { l.ast as int }
    else if k == 12 { l.stl as int }
    else if k == 13 { l.blk as int }
    else { l.tov as int }
}

/// Every line names a player within the stats table.
pub open spec fn lines_in_table(lines: Seq<PlayerLine>, n: int) -> bool {
    forall|i: int| 0 <= i < lines.len() ==> (#[trigger] lines[i]).player_id < n
}

/// What all of player `j`'s lines add to stat `k` (a player may have more
/// than one line; each counts).
pub open spec fn lines_total(lines: Seq<PlayerLine>, j: int, k: int) -> int
    decreases lines.len(),
{
    if lines.len() == 0 {
        0
    } else {
        lines_total(lines.drop_last(), j, k)
            + if lines.last().player_id == j { line_stat(lines.last(), k) } else { 0 }
    }
}

/// Adding the lines to the table overflows no total.
pub open spec fn lines_add_fits(stats: Seq<SeasonStats>, lines: Seq<PlayerLine>) -> bool {
    forall|j: int, k: int| 0 <= j < stats.len() && 0 <= k < n_stats()
        ==> stat(stats[j], k) + #[trigger] lines_total(lines, j, k) <= u32::MAX
}

/// Is `j` one of the players with a line?
pub open spec fn has_line(lines: Seq<PlayerLine>, j: int) -> bool {
    exists|i: int| 0 <= i < lines.len() && lines[i].player_id == j
}

pub proof fn lemma_lines_total_prefix(lines: Seq<PlayerLine>, n: int, j: int, k: int)
    requires
        0 <= n <= lines.len(),
    ensures
        0 <= lines_total(lines.take(n), j, k) <= lines_total(lines, j, k),
    decreases lines.len(),
{
    if n == lines.len() {
        assert(lines.take(n) =~= lines);
        if lines.len() > 0 {
            lemma_lines_total_prefix(lines.drop_last(), n - 1, j, k);
            assert(lines.drop_last().take(n - 1) =~= lines.drop_last());
        }
    } else {
        assert(lines.take(n) =~= lines.drop_last().take(n));
        lemma_lines_total_prefix(lines.drop_last(), n, j, k);
    }
}

fn add_line(s: &mut SeasonStats, l: &PlayerLine)
    requires
        forall|k: int| 0 <= k < n_stats() ==> stat(*old(s), k) + line_stat(*l, k) <= u32::MAX,
    ensures
        forall|k: int| 0 <= k < n_stats() ==> #[trigger] stat(*final(s), k) == stat(*old(s), k) + line_stat(*l, k),
{
    assert(stat(*s, 0) + line_stat(*l, 0) <= u32::MAX);
    assert(stat(*s, 1) + line_stat(*l, 1) <= u32::MAX);
    assert(stat(*s, 2) + line_stat(*l, 2) <= u32::MAX);
    assert(stat(*s, 3) + line_stat(*l, 3) <= u32::MAX);
    assert(stat(*s, 4) + line_stat(*l, 4) <= u32::MAX);
    assert(stat(*s, 5) + line_stat(*l, 5) <= u32::MAX);
    assert(stat(*s, 6) + line_stat(*l, 6) <= u32::MAX);
    assert(stat(*s, 7) + line_stat(*l, 7) <= u32::MAX);
    assert(stat(*s, 8) + line_stat(*l, 8) <= u32::MAX);
    assert(stat(*s, 9) + line_stat(*l, 9) <= u32::MAX);
    assert(stat(*s, 10) + line_stat(*l, 10) <= u32::MAX);
    assert(stat(*s, 11) + line_stat(*l, 11) <= u32::MAX);
    assert(stat(*s, 12) + line_stat(*l, 12) <= u32::MAX);
    assert(stat(*s, 13) + line_stat(*l, 13) <= u32::MAX);
    assert(stat(*s, 14) + line_stat(*l, 14) <= u32::MAX);
    s.gp = s.gp + 1;
    s.min = s.min + l.min;
    s.pts = s.pts + l.pts;
    s.fgm = s.fgm + l.fgm;
    s.fga = s.fga + l.fga;
    s.tpm = s.tpm + l.tpm;
    s.tpa = s.tpa + l.tpa;
    s.ftm = s.ftm + l.ftm;
    s.fta = s.fta + l.fta;
    s.oreb = s.oreb + l.oreb;
    s.dreb = s.dreb + l.dreb;
    s.ast = s.ast + l.ast;
    s.stl = s.stl + l.stl;
    s.blk = s.blk + l.blk;
    s.tov = s.tov + l.tov;
}

/// Add one game's box score into the running totals (indexed by player id):
/// every line adds a game played plus its numbers to its player's totals (a
/// player with two lines gets both); everyone else is untouched.
pub fn accumulate_stats(stats: &mut Vec<SeasonStats>, tb: &TeamBox)
    requires
        lines_in_table(tb.lines@, old(stats)@.len() as int),
        lines_add_fits(old(stats)@, tb.lines@),
    ensures
        final(stats)@.len() == old(stats)@.len(),
        forall|j: int, k: int| 0 <= j < old(stats)@.len() && 0 <= k < n_stats() ==>
            #[trigger] stat(final(stats)@[j], k) == stat(old(stats)@[j], k) + lines_total(tb.lines@, j, k),
        forall|j: int| 0 <= j < old(stats)@.len() && !has_line(tb.lines@, j)
            ==> #[trigger] final(stats)@[j] == old(stats)@[j],
{
    let ghost old_stats = stats@;
    let lines = &tb.lines;
    let mut i: usize = 0;
    while i < lines.len()
        invariant
            i <= lines@.len(),
            lines@ == tb.lines@,
            stats@.len() == old_stats.len(),
            lines_in_table(lines@, old_stats.len() as int),
            lines_add_fits(old_stats, lines@),
            forall|j: int, k: int| 0 <= j < old_stats.len() && 0 <= k < n_stats() ==>
                #[trigger] stat(stats@[j], k) == stat(old_stats[j], k) + lines_total(lines@.take(i as int), j, k),
            forall|j: int| 0 <= j < old_stats.len()
                && !(exists|q: int| 0 <= q < i && lines@[q].player_id == j)
                ==> #[trigger] stats@[j] == old_stats[j],
        decreases lines@.len() - i,
    {
        let l = lines[i];
        let j = l.player_id as usize;
        let ghost pre = lines@.take(i as int);
        let ghost post = lines@.take(i as int + 1);
        proof {
            assert(post.drop_last() =~= pre);
            assert(post.last() == l);
            assert forall|k: int| 0 <= k < n_stats() implies stat(stats@[j as int], k) + line_stat(l, k) <= u32::MAX by {
                lemma_lines_total_prefix(lines@, i as int + 1, j as int, k);
                assert(lines_total(post, j as int, k) == lines_total(pre, j as int, k) + line_stat(l, k));
                assert(stat(old_stats[j as int], k) + lines_total(lines@, j as int, k) <= u32::MAX);
            }
        }
        let mut s = stats[j];
        add_line(&mut s, &l);
        stats.set(j, s);
        proof {
            assert forall|jj: int, k: int| 0 <= jj < old_stats.len() && 0 <= k < n_stats() implies
                #[trigger] stat(stats@[jj], k) == stat(old_stats[jj], k) + lines_total(post, jj, k) by {
                assert(lines_total(post, jj, k) == lines_total(pre, jj, k)
                    + if l.player_id == jj { line_stat(l, k) } else { 0 });
            }
            assert forall|jj: int| 0 <= jj < old_stats.len()
                && !(exists|q: int| 0 <= q < i + 1 && lines@[q].player_id == jj)
                implies #[trigger] stats@[jj] == old_stats[jj] by {
                assert(lines@[i as int].player_id != jj);
            }
        }
        i = i + 1;
    }
    assert(lines@.take(i as int) =~= lines@);
    assert forall|j: int| 0 <= j < old_stats.len() && !has_line(tb.lines@, j)
        implies #[trigger] stats@[j] == old_stats[j] by {
        assert(!(exists|q: int| 0 <= q < i && lines@[q].player_id == j));
    }
}

} // verus!
