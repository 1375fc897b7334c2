//! The postseason: seeding the bracket from the standings, advancing it one
//! game-day at a time, and crowning the champion and Finals MVP.
//!
//! The game simulation itself is run by the caller; these operations take its
//! box score as input.

use vstd::prelude::*;
use crate::binary64::{lemma_nearest_double_close, nearest_double, nearest_double_exec};
use crate::league::{League, Phase, PlayoffOutcome};
use crate::league_season::{accumulate_game, box_applied, sim_fits};
use crate::player::{zero_stats, SeasonStats};
use crate::playoffs::{first_round_pairs, high_seed_hosts, series_winner, Playoffs, Series};
use crate::schedule::GameResult;
use crate::sim::GameSim;
use crate::standings::{is_standings_order, standings_order};
use crate::team::Team;
use crate::types::{Conference, PlayerId, TeamId};

verus! {

/// Every series of a round has a winner.
pub open spec fn round_decided(r: Seq<Series>) -> bool {
    forall|k: int| 0 <= k < r.len() ==> (#[trigger] series_winner(r[k])) is Some
}

/// The current (deepest) round of a bracket.
pub open spec fn current_round(po: Playoffs) -> Seq<Series> {
    po.rounds@.last()@
}

/// The index of the deepest round in which the team appears.
pub open spec fn deepest_round(rounds: Seq<Vec<Series>>, tid: TeamId) -> Option<int>
    decreases rounds.len(),
{
    if rounds.len() == 0 {
        None
    } else if exists|k: int| 0 <= k < rounds.last()@.len() && ((#[trigger] rounds.last()@[k]).high == tid
        || rounds.last()@[k].low == tid) {
        Some(rounds.len() - 1)
    } else {
        deepest_round(rounds.drop_last(), tid)
    }
}

/// Where a team finished in the playoffs.
pub open spec fn outcome_of(po: Option<Playoffs>, tid: TeamId) -> PlayoffOutcome {
    match po {
        None => PlayoffOutcome::MissedPlayoffs,
        Some(p) => if p.champion == Some(tid) {
            PlayoffOutcome::WonChampionship
        } else {
            match deepest_round(p.rounds@, tid) {
                Some(r) => PlayoffOutcome::LostInRound(r as usize),
                None => PlayoffOutcome::MissedPlayoffs,
            }
        },
    }
}

/// The double nearest to 0.7, in units of 2^-60.
pub open spec fn point_seven() -> int {
    807_045_053_224_792_832
}

/// The Finals MVP score, worked in double precision (units of 2^-60):
/// points, plus 0.7 per rebound, plus 0.7 per assist, each step rounded to
/// a double.
pub open spec fn mvp_score(s: SeasonStats) -> int {
    let reb = nearest_double((s.oreb + s.dreb) * point_seven(), 1);
    let with_reb = nearest_double(s.pts * 1_152_921_504_606_846_976 + reb, 1);
    nearest_double(with_reb + nearest_double(s.ast * point_seven(), 1), 1)
}

/// The Finals MVP score weighs every part of a line: it is points, plus 0.7
/// per rebound, plus 0.7 per assist (0.7 as the double nearest to it), to
/// within one part in 2^50 of that sum plus 2^-4 of a point; amounts in
/// units of 2^-60.
pub proof fn lemma_mvp_score_weighs_all(s: SeasonStats)
    ensures
        ({
            let exact = s.pts * 1_152_921_504_606_846_976 + (s.oreb + s.dreb) * 807_045_053_224_792_832
                + s.ast * 807_045_053_224_792_832;
            &&& 1_125_899_906_842_624 * (mvp_score(s) - exact) <= exact + 72_057_594_037_927_936
            &&& 1_125_899_906_842_624 * (exact - mvp_score(s)) <= exact + 72_057_594_037_927_936
        }),
{
    let w = 807_045_053_224_792_832int;
    let big = 1_152_921_504_606_846_976int;
    let rv = (s.oreb + s.dreb) * w;
    let r = nearest_double(rv, 1);
    lemma_nearest_double_close(rv);
    let xv = s.pts * big + r;
    let p = nearest_double(xv, 1);
    lemma_nearest_double_close(xv);
    let av = s.ast * w;
    let a = nearest_double(av, 1);
    lemma_nearest_double_close(av);
    let yv = p + a;
    let sc = nearest_double(yv, 1);
    lemma_nearest_double_close(yv);
    assert(point_seven() == w);
    assert(sc == mvp_score(s));
}

/// A player's Finals MVP score (see `mvp_score`).
fn mvp_score_exec(s: &SeasonStats) -> (score: u128)
    ensures
        score == mvp_score(*s),
{
    let w: u128 = 807_045_053_224_792_832;
    let reb: u128 = s.oreb as u128 + s.dreb as u128;
    assert(reb * w <= 0x2_0000_0000 * 807_045_053_224_792_832) by (nonlinear_arith)
        requires 0 <= reb <= 0x2_0000_0000, w == 807_045_053_224_792_832;
    assert((s.pts as u128) * 1_152_921_504_606_846_976 <= 0xffff_ffff * 1_152_921_504_606_846_976) by (nonlinear_arith)
        requires 0 <= s.pts <= 0xffff_ffff;
    assert((s.ast as u128) * w <= 0xffff_ffff * 807_045_053_224_792_832) by (nonlinear_arith)
        requires 0 <= s.ast <= 0xffff_ffff, w == 807_045_053_224_792_832;
    let r = nearest_double_exec(reb * w, 1);
    let p = nearest_double_exec(s.pts as u128 * 1_152_921_504_606_846_976 + r, 1);
    let a = nearest_double_exec(s.ast as u128 * w, 1);
    nearest_double_exec(p + a, 1)
}

/// Among a roster, the player with the best Finals score (the last such
/// player on ties), counting only players who appeared in the Finals.
pub open spec fn finals_best(roster: Seq<PlayerId>, stats: Seq<SeasonStats>) -> Option<PlayerId>
    decreases roster.len(),
{
    if roster.len() == 0 {
        None
    } else {
        let prev = finals_best(roster.drop_last(), stats);
        let pid = roster.last();
        if (pid as int) < stats.len() && stats[pid as int].gp > 0 {
            match prev {
                None => Some(pid),
                Some(b) => if mvp_score(stats[pid as int]) >= mvp_score(stats[b as int]) { Some(pid) } else { prev },
            }
        } else {
            prev
        }
    }
}

proof fn lemma_finals_best_in_range(roster: Seq<PlayerId>, stats: Seq<SeasonStats>)
    ensures
        finals_best(roster, stats) matches Some(b) ==> (b as int) < stats.len(),
    decreases roster.len(),
{
    if roster.len() > 0 {
        lemma_finals_best_in_range(roster.drop_last(), stats);
    }
}

/// The seed of a team: its place (1 = best) in its conference's standings.
pub open spec fn seed_in(order: Seq<usize>, tid: TeamId) -> int {
    if exists|k: int| 0 <= k < order.len() && order[k] == tid as usize {
        (choose|k: int| 0 <= k < order.len() && order[k] == tid as usize) + 1
    } else {
        99
    }
}

/// The pairing for the next round: the better seed of two adjacent winners
/// gets home court (the first one when seeds are equal).
pub open spec fn next_series_ok(s: Series, a: TeamId, b: TeamId, sa: int, sb: int) -> bool {
    &&& (if sa <= sb { s.high == a && s.low == b } else { s.high == b && s.low == a })
    &&& s.high_wins == 0 && s.low_wins == 0 && s.games@.len() == 0
}

/// A conference's standings order holds exactly its 16 teams.
proof fn lemma_conference_order_len(teams: Seq<Team>, conf: Conference, order: Seq<usize>)
    requires
        teams.len() == 32,
        forall|i: int| 0 <= i < 32 ==> (#[trigger] teams[i]).conference
            == (if i < 16 { Conference::East } else { Conference::West }),
        is_standings_order(teams, conf, order),
    ensures
        order.len() == 16,
        forall|k: int| 0 <= k < 16 ==> (#[trigger] order[k]) as int == order[k]
            && (if conf == Conference::East { order[k] < 16 } else { 16 <= order[k] < 32 }),
{
    let base: int = if conf == Conference::East { 0 } else { 16 };
    let target = Seq::new(16, |i: int| (base + i) as usize);
    assert forall|i: int, j: int| 0 <= i < target.len() && 0 <= j < target.len() && i != j
        implies target[i] != target[j] by {}
    assert(target.no_duplicates());
    target.unique_seq_to_set();
    assert forall|i: int, j: int| 0 <= i < order.len() && 0 <= j < order.len() && i != j
        implies order[i] != order[j] by {}
    assert(order.no_duplicates());
    order.unique_seq_to_set();
    assert forall|x: usize| order.to_set().contains(x) <==> target.to_set().contains(x) by {
        if order.to_set().contains(x) {
            let k = choose|k: int| 0 <= k < order.len() && order[k] == x;
            assert(teams[order[k] as int].conference == conf);
            assert(target[x as int - base] == x);
        }
        if target.to_set().contains(x) {
            let k = choose|k: int| 0 <= k < 16 && target[k] == x;
            assert(teams[x as int].conference == conf);
        }
    }
    assert(order.to_set() =~= target.to_set());
    assert forall|k: int| 0 <= k < 16 implies (#[trigger] order[k]) as int == order[k]
        && (if conf == Conference::East { order[k] < 16 } else { 16 <= order[k] < 32 }) by {
        assert(teams[order[k] as int].conference == conf);
    }
}

impl League {
    /// The standings order of a conference, with its 16 teams.
    pub(crate) fn conference_order(&self, conf: Conference) -> (order: Vec<usize>)
        requires
            self.wf(),
        ensures
            is_standings_order(self.teams@, conf, order@),
            order@.len() == 16,
            forall|k: int| 0 <= k < 16 ==> (if conf == Conference::East { (#[trigger] order@[k]) < 16 }
                else { 16 <= order@[k] < 32 }),
    {
        let order = standings_order(self.teams.as_slice(), conf);
        proof {
            lemma_conference_order_len(self.teams@, conf, order@);
        }
        order
    }

    /// Seed the first-round bracket from final standings (1v8, 4v5, 2v7,
    /// 3v6 in the East, then the same in the West). No games are played yet.
    /// Finals stats are reset and the league moves into the playoffs.
    pub fn start_playoffs(&mut self)
        requires
            old(self).wf(),
            forall|k: int| 0 <= k < old(self).schedule@.len() ==> (#[trigger] old(self).schedule@[k]).result is Some,
        ensures
            final(self).wf(),
            exists|oe: Seq<usize>, ow: Seq<usize>|
                is_standings_order(old(self).teams@, Conference::East, oe)
                && is_standings_order(old(self).teams@, Conference::West, ow)
                && #[trigger] first_round_from(final(self).playoffs, oe, ow),
            final(self).playoffs.unwrap().champion is None,
            final(self).playoffs.unwrap().finals_mvp is None,
            bracket_shape(final(self).playoffs.unwrap()),
            final(self).finals_stats@.len() == old(self).players@.len(),
            forall|j: int| 0 <= j < final(self).finals_stats@.len() ==> #[trigger] final(self).finals_stats@[j] == zero_stats(),
            *final(self) == (League { playoffs: final(self).playoffs, finals_stats: final(self).finals_stats,
                phase: Phase::Playoffs, ..*old(self) }),
    {
        let east = self.conference_order(Conference::East);
        let west = self.conference_order(Conference::West);
        let mut es: Vec<TeamId> = Vec::new();
        let mut ws: Vec<TeamId> = Vec::new();
        let mut k: usize = 0;
        while k < 8
            invariant
                k <= 8,
                east@.len() == 16,
                west@.len() == 16,
                forall|j: int| 0 <= j < 16 ==> (#[trigger] east@[j]) < 16,
                forall|j: int| 0 <= j < 16 ==> 16 <= (#[trigger] west@[j]) < 32,
                es@.len() == k,
                ws@.len() == k,
                forall|j: int| 0 <= j < k ==> (#[trigger] es@[j]) as int == east@[j] as int,
                forall|j: int| 0 <= j < k ==> (#[trigger] ws@[j]) as int == west@[j] as int,
            decreases 8 - k,
        {
            es.push(east[k] as TeamId);
            ws.push(west[k] as TeamId);
            k = k + 1;
        }
        let pe = first_round_pairs(es.as_slice());
        let pw = first_round_pairs(ws.as_slice());
        let mut round0: Vec<Series> = Vec::new();
        let mut i: usize = 0;
        while i < 8
            invariant
                i <= 8,
                pe@.len() == 4,
                pw@.len() == 4,
                round0@.len() == i,
                forall|j: int| 0 <= j < i ==> {
                    let (h, l) = if j < 4 { pe@[j] } else { pw@[j - 4] };
                    &&& (#[trigger] round0@[j]).high == h
                    &&& round0@[j].low == l
                    &&& round0@[j].high_wins == 0 && round0@[j].low_wins == 0
                    &&& round0@[j].games@.len() == 0
                },
            decreases 8 - i,
        {
            let (h, l) = if i < 4 { pe[i] } else { pw[i - 4] };
            round0.push(Series::new(h, l));
            i = i + 1;
        }
        let mut rounds: Vec<Vec<Series>> = Vec::new();
        rounds.push(round0);
        self.playoffs = Some(Playoffs { rounds, champion: None, finals_mvp: None });
        let n = self.players.len();
        let mut fs: Vec<SeasonStats> = Vec::new();
        let mut q: usize = 0;
        while q < n
            invariant
                q <= n,
                fs@.len() == q,
                forall|j: int| 0 <= j < q ==> #[trigger] fs@[j] == zero_stats(),
            decreases n - q,
        {
            fs.push(SeasonStats::new());
            q = q + 1;
        }
        self.finals_stats = fs;
        self.phase = Phase::Playoffs;
        assert(first_round_from(self.playoffs, east@, west@));
    }

    /// Is the current (deepest) round the Finals?
    pub fn in_finals(&self) -> (b: bool)
        ensures
            b == (self.playoffs matches Some(p) && p.rounds@.len() == 4),
    {
        match &self.playoffs {
            Some(p) => p.rounds.len() == 4,
            None => false,
        }
    }

    pub fn playoffs_complete(&self) -> (b: bool)
        ensures
            b == (self.playoffs matches Some(p) && p.champion is Some),
    {
        match &self.playoffs {
            Some(p) => p.champion.is_some(),
            None => false,
        }
    }

    /// Is the current (deepest) round fully decided? (Trivially so with no
    /// bracket or no rounds.)
    pub fn current_round_decided(&self) -> (b: bool)
        ensures
            b == match self.playoffs {
                None => true,
                Some(p) => p.rounds@.len() == 0 || round_decided(current_round(p)),
            },
    {
        match &self.playoffs {
            None => true,
            Some(p) => {
                if p.rounds.len() == 0 {
                    return true;
                }
                let r = &p.rounds[p.rounds.len() - 1];
                let mut k: usize = 0;
                while k < r.len()
                    invariant
                        k <= r@.len(),
                        self.playoffs is Some,
                        self.playoffs.unwrap().rounds@.len() > 0,
                        r@ == current_round(self.playoffs.unwrap()),
                        forall|j: int| 0 <= j < k ==> (#[trigger] series_winner(r@[j])) is Some,
                    decreases r@.len() - k,
                {
                    if !r[k].is_decided() {
                        assert(series_winner(current_round(self.playoffs.unwrap())[k as int]) is None);
                        assert(!round_decided(current_round(self.playoffs.unwrap())));
                        return false;
                    }
                    k = k + 1;
                }
                true
            }
        }
    }

    /// Does the user's team have a game on the next game-day (i.e. it is in
    /// an undecided series in the current round)?
    pub fn user_plays_next_playoff_game(&self) -> (b: bool)
        ensures
            b == match (self.user_team_id, self.playoffs) {
                (Some(uid), Some(po)) => po.champion is None && po.rounds@.len() > 0
                    && exists|k: int| 0 <= k < current_round(po).len()
                        && (#[trigger] series_winner(current_round(po)[k])) is None
                        && (current_round(po)[k].high == uid || current_round(po)[k].low == uid),
                _ => false,
            },
    {
        let Some(uid) = self.user_team_id else { return false };
        let Some(po) = &self.playoffs else { return false };
        if po.champion.is_some() || po.rounds.len() == 0 {
            return false;
        }
        let r = &po.rounds[po.rounds.len() - 1];
        let mut k: usize = 0;
        while k < r.len()
            invariant
                k <= r@.len(),
                self.playoffs == Some(*po),
                self.user_team_id == Some(uid),
                po.champion is None,
                po.rounds@.len() > 0,
                r@ == current_round(*po),
                forall|j: int| 0 <= j < k ==> !((#[trigger] series_winner(r@[j])) is None
                    && (r@[j].high == uid || r@[j].low == uid)),
            decreases r@.len() - k,
        {
            if !r[k].is_decided() && r[k].has_team(uid) {
                assert(series_winner(current_round(*po)[k as int]) is None);
                assert(self.playoffs == Some(*po));
                assert(exists|j: int| 0 <= j < current_round(*po).len()
                        && (#[trigger] series_winner(current_round(*po)[j])) is None
                        && (current_round(*po)[j].high == uid || current_round(*po)[j].low == uid));
                return true;
            }
            k = k + 1;
        }
        false
    }

    /// Is the user's team still alive in the bracket (the champion, or present
    /// in the current round)?
    pub fn user_still_in_playoffs(&self) -> (b: bool)
        ensures
            b == match (self.user_team_id, self.playoffs) {
                (Some(uid), Some(po)) => po.champion == Some(uid) || (po.rounds@.len() > 0
                    && exists|k: int| 0 <= k < current_round(po).len()
                        && ((#[trigger] current_round(po)[k]).high == uid || current_round(po)[k].low == uid)),
                _ => false,
            },
    {
        let Some(uid) = self.user_team_id else { return false };
        let Some(po) = &self.playoffs else { return false };
        if po.champion == Some(uid) {
            return true;
        }
        if po.rounds.len() == 0 {
            return false;
        }
        let r = &po.rounds[po.rounds.len() - 1];
        let mut k: usize = 0;
        while k < r.len()
            invariant
                k <= r@.len(),
                self.playoffs == Some(*po),
                self.user_team_id == Some(uid),
                po.rounds@.len() > 0,
                r@ == current_round(*po),
                forall|j: int| 0 <= j < k ==> !((#[trigger] r@[j]).high == uid || r@[j].low == uid),
            decreases r@.len() - k,
        {
            if r[k].has_team(uid) {
                assert(current_round(*po)[k as int].high == uid || current_round(*po)[k as int].low == uid);
                assert(self.playoffs == Some(*po));
                return true;
            }
            k = k + 1;
        }
        false
    }
}

/// The bracket's first round is the East's 1v8, 4v5, 2v7, 3v6 then the
/// West's, from the given standings orders, with nothing played yet.
pub open spec fn first_round_from(po: Option<Playoffs>, oe: Seq<usize>, ow: Seq<usize>) -> bool {
    &&& po is Some
    &&& po.unwrap().rounds@.len() == 1
    &&& po.unwrap().rounds@[0]@.len() == 8
    &&& forall|j: int| 0 <= j < 8 ==> {
        let s = #[trigger] po.unwrap().rounds@[0]@[j];
        let (hi, lo) = if j == 0 { (oe[0], oe[7]) } else if j == 1 { (oe[3], oe[4]) }
            else if j == 2 { (oe[1], oe[6]) } else if j == 3 { (oe[2], oe[5]) }
            else if j == 4 { (ow[0], ow[7]) } else if j == 5 { (ow[3], ow[4]) }
            else if j == 6 { (ow[1], ow[6]) } else { (ow[2], ow[5]) };
        &&& s.high as int == hi as int
        &&& s.low as int == lo as int
        &&& s.high_wins == 0 && s.low_wins == 0
        &&& s.games@.len() == 0
    }
}


/// How many series a playoff round holds: 8, 4, 2, then the Finals.
pub open spec fn round_size(r: int) -> int {
    if r == 0 { 8 } else if r == 1 { 4 } else if r == 2 { 2 } else { 1 }
}

/// The bracket has one to four rounds of 8, 4, 2 and 1 series.
pub open spec fn bracket_shape(po: Playoffs) -> bool {
    &&& 1 <= po.rounds@.len() <= 4
    &&& forall|r: int| 0 <= r < po.rounds@.len() ==> (#[trigger] po.rounds@[r])@.len() == round_size(r)
}

/// The seed of a team for home court: its conference standings place, or 99
/// for a team outside the table.
pub open spec fn team_seed(oe: Seq<usize>, ow: Seq<usize>, tid: TeamId) -> int {
    if tid < 16 { seed_in(oe, tid) } else if tid < 32 { seed_in(ow, tid) } else { 99 }
}

/// The winner of the `i`-th series of a round.
pub open spec fn winner_at(r: Seq<Series>, i: int) -> TeamId {
    series_winner(r[i]).unwrap()
}

/// `new` is `old` with the next round appended: adjacent winners of the
/// current round paired up, the better seed (by the given standings orders)
/// hosting.
pub open spec fn advanced(old: Playoffs, new: Playoffs, oe: Seq<usize>, ow: Seq<usize>) -> bool {
    let cur = current_round(old);
    &&& new.rounds@.len() == old.rounds@.len() + 1
    &&& forall|r: int| 0 <= r < old.rounds@.len() ==> #[trigger] new.rounds@[r] == old.rounds@[r]
    &&& new.champion == old.champion
    &&& new.finals_mvp == old.finals_mvp
    &&& new.rounds@.last()@.len() == cur.len() / 2
    &&& forall|j: int| 0 <= j < cur.len() / 2 ==> next_series_ok(#[trigger] new.rounds@.last()@[j],
        winner_at(cur, 2 * j), winner_at(cur, 2 * j + 1),
        team_seed(oe, ow, winner_at(cur, 2 * j)), team_seed(oe, ow, winner_at(cur, 2 * j + 1)))
}

/// `new` is `old` with the Finals winner crowned and the Finals MVP named.
pub open spec fn crowned(old: League, new: League) -> bool {
    let po = old.playoffs.unwrap();
    let champ = series_winner(po.rounds@[3]@[0]);
    &&& new == (League { playoffs: new.playoffs, ..old })
    &&& new.playoffs is Some
    &&& new.playoffs.unwrap().rounds == po.rounds
    &&& new.playoffs.unwrap().champion == champ
    &&& new.playoffs.unwrap().finals_mvp == match champ {
        Some(c) => if (c as int) < old.teams@.len() {
            finals_best(old.teams@[c as int].roster@, old.finals_stats@)
        } else {
            None
        },
        None => None,
    }
}

/// `new` is `s` after one more game whose home side was `home`.
pub open spec fn series_after(s: Series, new: Series, home: TeamId, res: GameResult) -> bool {
    let high_won = if home == s.high { res.home_score > res.away_score } else { !(res.home_score > res.away_score) };
    &&& new.high == s.high
    &&& new.low == s.low
    &&& new.games@ == s.games@.push(res)
    &&& new.high_wins == (if high_won { s.high_wins + 1 } else { s.high_wins as int })
    &&& new.low_wins == (if high_won { s.low_wins as int } else { s.low_wins + 1 })
}

/// A series' tally adds up: one game per win, neither side past four wins,
/// and not both sides at four.
pub open spec fn series_sound(s: Series) -> bool {
    &&& s.games@.len() == s.high_wins + s.low_wins
    &&& s.high_wins <= 4
    &&& s.low_wins <= 4
    &&& !(s.high_wins == 4 && s.low_wins == 4)
}

/// Best of seven: a fresh series is sound; one more game of an undecided
/// sound series leaves it sound; and a decided sound series went four to
/// seven games.
pub proof fn lemma_best_of_seven(s: Series, new: Series, home: TeamId, res: GameResult)
    ensures
        s.high_wins == 0 && s.low_wins == 0 && s.games@.len() == 0 ==> series_sound(s),
        series_sound(s) && series_winner(s) is None && series_after(s, new, home, res) ==> series_sound(new),
        series_sound(s) && series_winner(s) is Some ==> 4 <= s.games@.len() <= 7,
{
}

/// The best roster player by overall (the last such player on ties).
pub open spec fn best_on_roster(roster: Seq<PlayerId>, players: Seq<crate::player::Player>) -> Option<PlayerId>
    decreases roster.len(),
{
    if roster.len() == 0 {
        None
    } else {
        let prev = best_on_roster(roster.drop_last(), players);
        let pid = roster.last();
        if (pid as int) < players.len() {
            match prev {
                None => Some(pid),
                Some(b) => if crate::player::overall_of(players[pid as int].ratings)
                    >= crate::player::overall_of(players[b as int].ratings) { Some(pid) } else { prev },
            }
        } else {
            prev
        }
    }
}

proof fn lemma_best_on_roster_in_range(roster: Seq<PlayerId>, players: Seq<crate::player::Player>)
    ensures
        best_on_roster(roster, players) matches Some(b) ==> (b as int) < players.len(),
    decreases roster.len(),
{
    if roster.len() > 0 {
        lemma_best_on_roster_in_range(roster.drop_last(), players);
    }
}

impl League {
    /// The seed (1 = best) of a team in its conference's standings, 99 if
    /// the team is not in the table.
    pub(crate) fn seed_from(order: &Vec<usize>, tid: TeamId) -> (seed: u32)
        requires
            forall|i: int, j: int| 0 <= i < order@.len() && 0 <= j < order@.len() && i != j ==> order@[i] != order@[j],
            order@.len() <= 16,
        ensures
            seed == seed_in(order@, tid),
    {
        let mut k: usize = 0;
        while k < order.len()
            invariant
                k <= order@.len(),
                order@.len() <= 16,
                forall|i: int, j: int| 0 <= i < order@.len() && 0 <= j < order@.len() && i != j ==> order@[i] != order@[j],
                forall|j: int| 0 <= j < k ==> order@[j] != tid as usize,
            decreases order@.len() - k,
        {
            if order[k] == tid as usize {
                proof {
                    let c = choose|c: int| 0 <= c < order@.len() && order@[c] == tid as usize;
                    if c != k {
                        assert(order@[c] != order@[k as int]);
                    }
                }
                return (k + 1) as u32;
            }
            k = k + 1;
        }
        99
    }

    /// Build the next round's pairings from the current round's winners:
    /// adjacent winners meet, and the better conference seed hosts.
    pub fn build_next_round(&mut self)
        requires
            old(self).wf(),
            old(self).playoffs is Some,
            bracket_shape(old(self).playoffs.unwrap()),
            old(self).playoffs.unwrap().rounds@.len() < 4,
            round_decided(current_round(old(self).playoffs.unwrap())),
        ensures
            final(self).wf(),
            final(self).playoffs is Some,
            bracket_shape(final(self).playoffs.unwrap()),
            exists|oe: Seq<usize>, ow: Seq<usize>|
                is_standings_order(old(self).teams@, Conference::East, oe)
                && is_standings_order(old(self).teams@, Conference::West, ow)
                && #[trigger] advanced(old(self).playoffs.unwrap(), final(self).playoffs.unwrap(), oe, ow),
            *final(self) == (League { playoffs: final(self).playoffs, ..*old(self) }),
    {
        let east = self.conference_order(Conference::East);
        let west = self.conference_order(Conference::West);
        let mut po = self.playoffs.take().unwrap();
        let ghost old_po = po;
        let n = po.rounds.len();
        let mut next: Vec<Series> = Vec::new();
        {
            let last = &po.rounds[n - 1];
            let m = last.len();
            assert(m == round_size(n as int - 1));
            let mut j: usize = 0;
            while j < m / 2
                invariant
                    m == last@.len(),
                    last@ == current_round(old_po),
                    m % 2 == 0,
                    round_decided(last@),
                    east@.len() == 16,
                    west@.len() == 16,
                    forall|i: int, k: int| 0 <= i < east@.len() && 0 <= k < east@.len() && i != k ==> east@[i] != east@[k],
                    forall|i: int, k: int| 0 <= i < west@.len() && 0 <= k < west@.len() && i != k ==> west@[i] != west@[k],
                    j <= m / 2,
                    next@.len() == j,
                    forall|q: int| 0 <= q < j ==> next_series_ok(#[trigger] next@[q],
                        winner_at(last@, 2 * q), winner_at(last@, 2 * q + 1),
                        team_seed(east@, west@, winner_at(last@, 2 * q)), team_seed(east@, west@, winner_at(last@, 2 * q + 1))),
                decreases m / 2 - j,
            {
                assert(series_winner(last@[2 * j as int]) is Some);
                assert(series_winner(last@[2 * j as int + 1]) is Some);
                let a = last[2 * j].winner().unwrap();
                let b = last[2 * j + 1].winner().unwrap();
                let sa = if a < 16 { Self::seed_from(&east, a) } else if a < 32 { Self::seed_from(&west, a) } else { 99 };
                let sb = if b < 16 { Self::seed_from(&east, b) } else if b < 32 { Self::seed_from(&west, b) } else { 99 };
                let (high, low) = if sa <= sb { (a, b) } else { (b, a) };
                next.push(Series::new(high, low));
                j = j + 1;
            }
        }
        po.rounds.push(next);
        self.playoffs = Some(po);
        assert(advanced(old_po, self.playoffs.unwrap(), east@, west@));
    }

    /// The home and away sides of the next game of a series: the higher seed
    /// hosts games 1, 2, 5 and 7.
    pub fn playoff_matchup(&self, series_idx: usize) -> (ha: (TeamId, TeamId))
        requires
            self.playoffs is Some,
            self.playoffs.unwrap().rounds@.len() > 0,
            series_idx < current_round(self.playoffs.unwrap()).len(),
            current_round(self.playoffs.unwrap())[series_idx as int].games@.len() < usize::MAX,
        ensures
            ({
                let s = current_round(self.playoffs.unwrap())[series_idx as int];
                let g = s.games@.len() + 1;
                ha == (if g == 1 || g == 2 || g == 5 || g == 7 { (s.high, s.low) } else { (s.low, s.high) })
            }),
    {
        let po = self.playoffs.as_ref().unwrap();
        let s = &po.rounds[po.rounds.len() - 1][series_idx];
        let game_no = s.games_played() + 1;
        if high_seed_hosts(game_no) {
            (s.high, s.low)
        } else {
            (s.low, s.high)
        }
    }

    /// Record one game of a series of the current round, played with
    /// `sim.home` hosting. Finals games also feed the Finals MVP race.
    pub fn record_playoff_game(&mut self, series_idx: usize, sim: &GameSim)
        requires
            old(self).wf(),
            old(self).playoffs is Some,
            bracket_shape(old(self).playoffs.unwrap()),
            series_idx < current_round(old(self).playoffs.unwrap()).len(),
            series_winner(current_round(old(self).playoffs.unwrap())[series_idx as int]) is None,
            old(self).playoffs.unwrap().rounds@.len() == 4 ==> sim_fits(old(self).finals_stats@, *sim),
        ensures
            final(self).wf(),
            final(self).playoffs is Some,
            bracket_shape(final(self).playoffs.unwrap()),
            final(self).playoffs.unwrap().champion == old(self).playoffs.unwrap().champion,
            final(self).playoffs.unwrap().finals_mvp == old(self).playoffs.unwrap().finals_mvp,
            final(self).playoffs.unwrap().rounds@.len() == old(self).playoffs.unwrap().rounds@.len(),
            forall|r: int| 0 <= r < old(self).playoffs.unwrap().rounds@.len() - 1
                ==> #[trigger] final(self).playoffs.unwrap().rounds@[r] == old(self).playoffs.unwrap().rounds@[r],
            current_round(final(self).playoffs.unwrap()).len() == current_round(old(self).playoffs.unwrap()).len(),
            forall|k: int| 0 <= k < current_round(old(self).playoffs.unwrap()).len() && k != series_idx
                ==> #[trigger] current_round(final(self).playoffs.unwrap())[k] == current_round(old(self).playoffs.unwrap())[k],
            series_after(current_round(old(self).playoffs.unwrap())[series_idx as int],
                current_round(final(self).playoffs.unwrap())[series_idx as int], sim.home.team_id,
                GameResult { home_score: sim.home.score, away_score: sim.away.score }),
            old(self).playoffs.unwrap().rounds@.len() == 4 ==> exists|mid: Seq<SeasonStats>|
                box_applied(old(self).finals_stats@, mid, sim.home.lines@)
                && #[trigger] box_applied(mid, final(self).finals_stats@, sim.away.lines@),
            old(self).playoffs.unwrap().rounds@.len() != 4 ==> final(self).finals_stats == old(self).finals_stats,
            *final(self) == (League { playoffs: final(self).playoffs, finals_stats: final(self).finals_stats, ..*old(self) }),
    {
        let is_finals = self.in_finals();
        if is_finals {
            accumulate_game(&mut self.finals_stats, sim);
        }
        let res = GameResult { home_score: sim.home.score, away_score: sim.away.score };
        let mut po = self.playoffs.take().unwrap();
        let ghost old_po = po;
        let mut round = po.rounds.pop().unwrap();
        let ghost old_round = round@;
        assert(old_round == current_round(old_po));
        let high_won = if sim.home.team_id == round[series_idx].high { res.home_won() } else { !res.home_won() };
        if high_won {
            round[series_idx].high_wins = round[series_idx].high_wins + 1;
        } else {
            round[series_idx].low_wins = round[series_idx].low_wins + 1;
        }
        round[series_idx].games.push(res);
        po.rounds.push(round);
        self.playoffs = Some(po);
        assert(current_round(self.playoffs.unwrap()) == round@);
    }

    /// Among the champion's roster, the best Finals performer (points plus
    /// 0.7 per rebound and per assist, among players who appeared).
    pub fn compute_finals_mvp(&self, champion: TeamId) -> (mvp: Option<PlayerId>)
        requires
            self.wf(),
        ensures
            mvp == (if (champion as int) < self.teams@.len() {
                finals_best(self.teams@[champion as int].roster@, self.finals_stats@)
            } else {
                None
            }),
    {
        if (champion as usize) >= self.teams.len() {
            return None;
        }
        let roster = &self.teams[champion as usize].roster;
        let mut best: Option<PlayerId> = None;
        let mut best_score: u128 = 0;
        let mut i: usize = 0;
        while i < roster.len()
            invariant
                i <= roster@.len(),
                best == finals_best(roster@.take(i as int), self.finals_stats@),
                best matches Some(b) ==> (b as int) < self.finals_stats@.len() && best_score == mvp_score(self.finals_stats@[b as int]),
            decreases roster@.len() - i,
        {
            proof {
                assert(roster@.take(i as int + 1).drop_last() =~= roster@.take(i as int));
            }
            let pid = roster[i];
            if (pid as usize) < self.finals_stats.len() && self.finals_stats[pid as usize].gp > 0 {
                let s = self.finals_stats[pid as usize];
                let score = mvp_score_exec(&s);
                match best {
                    None => {
                        best = Some(pid);
                        best_score = score;
                    }
                    Some(_) => {
                        if score >= best_score {
                            best = Some(pid);
                            best_score = score;
                        }
                    }
                }
            }
            i = i + 1;
        }
        assert(roster@.take(i as int) =~= roster@);
        best
    }

    /// Crown the Finals winner and pick the Finals MVP.
    pub fn crown_champion(&mut self)
        requires
            old(self).wf(),
            old(self).playoffs is Some,
            bracket_shape(old(self).playoffs.unwrap()),
            old(self).playoffs.unwrap().rounds@.len() == 4,
        ensures
            final(self).wf(),
            bracket_shape(final(self).playoffs.unwrap()),
            crowned(*old(self), *final(self)),
    {
        let champ = self.playoffs.as_ref().unwrap().rounds[3][0].winner();
        let mvp = match champ {
            Some(c) => self.compute_finals_mvp(c),
            None => None,
        };
        let mut po = self.playoffs.take().unwrap();
        po.champion = champ;
        po.finals_mvp = mvp;
        self.playoffs = Some(po);
    }

    /// The first half of a playoff game-day. Returns false (changing nothing)
    /// when there is no bracket or it already has a champion. If the current
    /// round is decided, the bracket advances first: a decided Finals crowns
    /// the champion (and returns false), any other round gets its successor.
    /// Otherwise the day may go ahead unchanged.
    pub fn playoff_gameday_begin(&mut self) -> (go: bool)
        requires
            old(self).wf(),
            old(self).playoffs matches Some(po) ==> bracket_shape(po),
        ensures
            final(self).wf(),
            final(self).playoffs matches Some(po) ==> bracket_shape(po),
            match old(self).playoffs {
                None => !go && *final(self) == *old(self),
                Some(po) => if po.champion is Some {
                    !go && *final(self) == *old(self)
                } else if !round_decided(current_round(po)) {
                    go && *final(self) == *old(self)
                } else if po.rounds@.len() >= 4 {
                    !go && crowned(*old(self), *final(self))
                } else {
                    go && final(self).playoffs is Some
                    && *final(self) == (League { playoffs: final(self).playoffs, ..*old(self) })
                    && exists|oe: Seq<usize>, ow: Seq<usize>|
                        is_standings_order(old(self).teams@, Conference::East, oe)
                        && is_standings_order(old(self).teams@, Conference::West, ow)
                        && #[trigger] advanced(po, final(self).playoffs.unwrap(), oe, ow)
                },
            },
    {
        if self.playoffs.is_none() || self.playoffs_complete() {
            return false;
        }
        if self.current_round_decided() {
            let n = self.playoffs.as_ref().unwrap().rounds.len();
            if n >= 4 {
                self.crown_champion();
                return false;
            }
            self.build_next_round();
        }
        true
    }

    /// The second half of a playoff game-day: if that completed the Finals,
    /// crown the champion immediately.
    pub fn playoff_gameday_end(&mut self)
        requires
            old(self).wf(),
            old(self).playoffs matches Some(po) ==> bracket_shape(po),
        ensures
            final(self).wf(),
            final(self).playoffs matches Some(po) ==> bracket_shape(po),
            match old(self).playoffs {
                Some(po) => if po.rounds@.len() >= 4 && round_decided(current_round(po)) {
                    crowned(*old(self), *final(self))
                } else {
                    *final(self) == *old(self)
                },
                None => *final(self) == *old(self),
            },
    {
        if self.playoffs.is_some() && self.current_round_decided() {
            let n = self.playoffs.as_ref().unwrap().rounds.len();
            if n >= 4 {
                self.crown_champion();
            }
        }
    }

    /// Find where a team finished in the playoffs.
    pub fn outcome_for(&self, team_id: TeamId) -> (o: PlayoffOutcome)
        ensures
            o == outcome_of(self.playoffs, team_id),
    {
        let Some(po) = &self.playoffs else {
            return PlayoffOutcome::MissedPlayoffs;
        };
        if po.champion == Some(team_id) {
            return PlayoffOutcome::WonChampionship;
        }
        let mut deepest: Option<usize> = None;
        let mut ri: usize = 0;
        while ri < po.rounds.len()
            invariant
                ri <= po.rounds@.len(),
                match deepest {
                    Some(r) => deepest_round(po.rounds@.take(ri as int), team_id) == Some(r as int),
                    None => deepest_round(po.rounds@.take(ri as int), team_id) is None,
                },
            decreases po.rounds@.len() - ri,
        {
            let round = &po.rounds[ri];
            let mut found = false;
            let mut k: usize = 0;
            while k < round.len()
                invariant
                    k <= round@.len(),
                    found == exists|j: int| 0 <= j < k && ((#[trigger] round@[j]).high == team_id || round@[j].low == team_id),
                decreases round@.len() - k,
            {
                if round[k].high == team_id || round[k].low == team_id {
                    found = true;
                }
                k = k + 1;
            }
            proof {
                let t = po.rounds@.take(ri as int + 1);
                assert(t.drop_last() =~= po.rounds@.take(ri as int));
                assert(t.last() == *round);
                assert(t.last()@ == round@);
                if found {
                    let j = choose|j: int| 0 <= j < k && ((#[trigger] round@[j]).high == team_id || round@[j].low == team_id);
                    assert(t.last()@[j] == round@[j]);
                    assert(deepest_round(t, team_id) == Some(ri as int));
                } else {
                    assert(!(exists|j: int| 0 <= j < t.last()@.len() && ((#[trigger] t.last()@[j]).high == team_id
                        || t.last()@[j].low == team_id)));
                    assert(deepest_round(t, team_id) == deepest_round(po.rounds@.take(ri as int), team_id));
                }
            }
            if found {
                deepest = Some(ri);
            }
            ri = ri + 1;
        }
        assert(po.rounds@.take(ri as int) =~= po.rounds@);
        match deepest {
            Some(r) => PlayoffOutcome::LostInRound(r),
            None => PlayoffOutcome::MissedPlayoffs,
        }
    }
}

} // verus!
