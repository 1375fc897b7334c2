//! The top-level league: all state plus the season state machine.
//!
//! This is the single object the UI holds. Team ids index the team table and
//! player ids index the player table (and the per-player stats tables); the
//! well-formedness predicate `wf` records that, and every operation keeps it.

use vstd::prelude::*;
use std::collections::HashMap;
use rand::rngs::StdRng;
use crate::draft::Draft;
use crate::free_agency::FreeAgency;
use crate::player::{overall_of, Career, Contract, Player, Ratings, SeasonStats, zero_stats};
use crate::playoffs::Playoffs;
use crate::rng::{rng_between, rng_from_seed};
use crate::schedule::{generate_schedule, Game, GameResult};
use crate::player::{n_stats, stat};
use crate::team::{default_finances, Finances, Team};
use crate::teams_data::presets;
use crate::types::{Color, Conference, PlayerId, TeamId};

verus! {

/// The league salary cap, in thousands of dollars ($140.0M).
pub const SALARY_CAP: u32 = 140_000;
/// Minimum salary, in thousands ($1.2M).
pub const MIN_SALARY: u32 = 1_200;
/// Maximum salary, in thousands ($48.0M).
pub const MAX_SALARY: u32 = 48_000;
/// Day after which in-season trades are no longer allowed.
pub const TRADE_DEADLINE_DAY: u32 = 50;
/// Largest roster a team may carry through trades and free agency.
pub const ROSTER_MAX: usize = 15;
/// Most outstanding free-agent offers the user may have at once.
pub const FA_MAX_OFFERS: usize = 6;
/// How many future drafts are tradeable at once (a rolling window).
pub const PICK_YEARS: u32 = 4;

pub open spec fn clamp_int(v: int, lo: int, hi: int) -> int {
    if v < lo { lo } else if v > hi { hi } else { v }
}

/// A fair-market yearly salary (thousands) for a player of the given overall:
/// 12,000 + 1,700 per point above 70 for good players, otherwise 1,200 + 540
/// per point above 50, kept within the minimum and maximum salary.
pub open spec fn market_salary_of(ovr: int) -> int {
    let raw = if ovr >= 70 {
        12_000 + (ovr - 70) * 1_700
    } else {
        1_200 + (if ovr > 50 { ovr - 50 } else { 0 }) * 540
    };
    clamp_int(raw, MIN_SALARY as int, MAX_SALARY as int)
}

/// A fair-market yearly salary (thousands) for a player of the given overall.
/// This is what the player is "worth" — used for generated contracts, free
/// agency demands, and trade-value math.
pub fn market_salary(ovr: u8) -> (s: u32)
    ensures
        s == market_salary_of(ovr as int),
{
    let o = ovr as u32;
    let raw: u32 = if o >= 70 {
        12_000 + (o - 70) * 1_700
    } else {
        1_200 + (if o > 50 { o - 50 } else { 0 }) * 540
    };
    if raw < MIN_SALARY {
        MIN_SALARY
    } else if raw > MAX_SALARY {
        MAX_SALARY
    } else {
        raw
    }
}

/// A better player is never worth less: the market salary rises (weakly)
/// with the overall rating.
pub proof fn lemma_market_salary_monotone(a: int, b: int)
    requires
        a <= b,
    ensures
        market_salary_of(a) <= market_salary_of(b),
{
}

/// Rookie-scale salary (thousands) for an overall draft pick number: 9,500
/// for #1, 130 less per later pick, never below the minimum salary.
pub open spec fn rookie_scale_of(pick: int) -> int {
    clamp_int(9_500 - (pick - 1) * 130, MIN_SALARY as int, 9_500)
}

/// Rookie-scale salary (thousands) for a given overall draft pick number.
pub fn rookie_scale(pick: u8) -> (s: u32)
    ensures
        s == rookie_scale_of(pick as int),
{
    let drop: u32 = if pick == 0 { 0 } else { (pick as u32 - 1) * 130 };
    if pick == 0 {
        9_500
    } else if drop >= 9_500 - MIN_SALARY {
        MIN_SALARY
    } else {
        9_500 - drop
    }
}

/// An earlier pick is never paid less: the rookie scale falls (weakly) with
/// the pick number, and stays between the minimum salary and 9,500.
pub proof fn lemma_rookie_scale_monotone(a: int, b: int)
    requires
        a <= b,
    ensures
        rookie_scale_of(b) <= rookie_scale_of(a),
        MIN_SALARY <= rookie_scale_of(a) <= 9_500,
{
}

/// The range of extra growth a player of the given age may have beyond his
/// current overall.
pub open spec fn potential_room(age: int) -> (int, int) {
    if age <= 20 { (6, 26) }
    else if age <= 22 { (4, 20) }
    else if age <= 24 { (2, 12) }
    else if age <= 26 { (0, 6) }
    else { (0, 0) }
}

/// Current overall plus growth room, capped at 99.
pub open spec fn capped_potential(ovr: int, room: int) -> int {
    if ovr + room < 99 { ovr + room } else { 99 }
}

/// A player's peak-overall ceiling: current overall plus age-dependent upside
/// (capped at 99).
pub fn gen_potential(ovr: u8, age: u8, rng: &mut StdRng) -> (p: u8)
    ensures
        exists|room: int| potential_room(age as int).0 <= room <= potential_room(age as int).1
            && p == #[trigger] capped_potential(ovr as int, room),
{
    let room: i32 = if age <= 20 {
        rng_between(rng, 6, 26)
    } else if age <= 22 {
        rng_between(rng, 4, 20)
    } else if age <= 24 {
        rng_between(rng, 2, 12)
    } else if age <= 26 {
        rng_between(rng, 0, 6)
    } else {
        0
    };
    let total = ovr as i32 + room;
    assert(capped_potential(ovr as int, room as int) == (if total < 99 { total as int } else { 99 }));
    if total < 99 { total as u8 } else { 99 }
}

/// One attribute after a change of `d` plus a little noise, clamped to 25..=99.
pub open spec fn bumped(v: u8, d: int, noise: int) -> u8 {
    clamp_int(v + d + noise, 25, 99) as u8
}

fn bump_attr(v: &mut u8, d: i32, rng: &mut StdRng)
    requires
        -1000 <= d <= 1000,
    ensures
        exists|noise: int| -1 <= noise <= 1 && *final(v) == bumped(*old(v), d as int, noise),
{
    let ghost old_v = *v;
    let noise = rng_between(rng, -1, 1);
    let x = *v as i32 + d + noise;
    *v = if x < 25 { 25 } else if x > 99 { 99 } else { x as u8 };
    assert(*v == bumped(old_v, d as int, noise as int));
}

/// Every attribute moved by `d` (with noise in -1..=1), clamped to 25..=99.
pub open spec fn attrs_moved(old: Ratings, new: Ratings, d: int) -> bool {
    &&& exists|n: int| -1 <= n <= 1 && new.layup == bumped(old.layup, d, n)
    &&& exists|n: int| -1 <= n <= 1 && new.dunk == bumped(old.dunk, d, n)
    &&& exists|n: int| -1 <= n <= 1 && new.post == bumped(old.post, d, n)
    &&& exists|n: int| -1 <= n <= 1 && new.mid_range == bumped(old.mid_range, d, n)
    &&& exists|n: int| -1 <= n <= 1 && new.three == bumped(old.three, d, n)
    &&& exists|n: int| -1 <= n <= 1 && new.free_throw == bumped(old.free_throw, d, n)
    &&& exists|n: int| -1 <= n <= 1 && new.passing == bumped(old.passing, d, n)
    &&& exists|n: int| -1 <= n <= 1 && new.ball_handling == bumped(old.ball_handling, d, n)
    &&& exists|n: int| -1 <= n <= 1 && new.basketball_iq == bumped(old.basketball_iq, d, n)
    &&& exists|n: int| -1 <= n <= 1 && new.interior_defense == bumped(old.interior_defense, d, n)
    &&& exists|n: int| -1 <= n <= 1 && new.perimeter_defense == bumped(old.perimeter_defense, d, n)
    &&& exists|n: int| -1 <= n <= 1 && new.steal == bumped(old.steal, d, n)
    &&& exists|n: int| -1 <= n <= 1 && new.block == bumped(old.block, d, n)
    &&& exists|n: int| -1 <= n <= 1 && new.rebounding == bumped(old.rebounding, d, n)
    &&& exists|n: int| -1 <= n <= 1 && new.athleticism == bumped(old.athleticism, d, n)
    &&& exists|n: int| -1 <= n <= 1 && new.stamina == bumped(old.stamina, d, n)
}

/// Apply an approximately uniform per-attribute change of `d` (with a little
/// noise), clamped to a sane range. Raising every attribute by `d` moves the
/// overall by roughly `d`.
pub fn apply_attr_delta(r: &mut Ratings, d: i32, rng: &mut StdRng)
    requires
        -1000 <= d <= 1000,
    ensures
        attrs_moved(*old(r), *final(r), d as int),
{
    bump_attr(&mut r.layup, d, rng);
    bump_attr(&mut r.dunk, d, rng);
    bump_attr(&mut r.post, d, rng);
    bump_attr(&mut r.mid_range, d, rng);
    bump_attr(&mut r.three, d, rng);
    bump_attr(&mut r.free_throw, d, rng);
    bump_attr(&mut r.passing, d, rng);
    bump_attr(&mut r.ball_handling, d, rng);
    bump_attr(&mut r.basketball_iq, d, rng);
    bump_attr(&mut r.interior_defense, d, rng);
    bump_attr(&mut r.perimeter_defense, d, rng);
    bump_attr(&mut r.steal, d, rng);
    bump_attr(&mut r.block, d, rng);
    bump_attr(&mut r.rebounding, d, rng);
    bump_attr(&mut r.athleticism, d, rng);
    bump_attr(&mut r.stamina, d, rng);
}

/// End-of-season individual awards (winners by player id).
#[derive(Debug, Clone, Copy)]
pub struct Awards {
    pub mvp: Option<PlayerId>,
    pub dpoy: Option<PlayerId>,
    pub roy: Option<PlayerId>,
}

/// How the owner felt about the season.
#[derive(Debug, Clone, Copy, PartialEq, Eq, Structural)]
pub enum OwnerTone {
    TooEarly,
    Pleased,
    Neutral,
    Displeased,
}

/// The owner's after-season note to the GM.
#[derive(Debug, Clone)]
pub struct OwnerMessage {
    pub tone: OwnerTone,
    pub body: String,
}

/// How interested a free agent is in the user's current offer.
#[derive(Debug, Clone, Copy, PartialEq, Eq, Structural)]
pub enum Interest {
    NoOffer,
    Unlikely,
    Lukewarm,
    Interested,
    Eager,
}

pub open spec fn interest_label(i: Interest) -> Seq<char> {
    match i {
        Interest::NoOffer => "\u{2014}"@,
        Interest::Unlikely => "Unlikely"@,
        Interest::Lukewarm => "Lukewarm"@,
        Interest::Interested => "Interested"@,
        Interest::Eager => "Eager"@,
    }
}

impl Interest {
    pub fn label(&self) -> (s: &'static str)
        ensures
            s@ == interest_label(*self),
    {
        match self {
            Interest::NoOffer => "\u{2014}",
            Interest::Unlikely => "Unlikely",
            Interest::Lukewarm => "Lukewarm",
            Interest::Interested => "Interested",
            Interest::Eager => "Eager",
        }
    }
}

/// A tradeable future draft pick. `season` is the draft year it conveys in,
/// `original` is the team whose slot it is (drives its value), and `owner` is
/// who currently holds it.
#[derive(Debug, Clone, Copy)]
pub struct OwnedPick {
    pub id: u32,
    pub season: u32,
    pub round: u8,
    pub original: TeamId,
    pub owner: TeamId,
}

/// Where we are in the yearly cycle.
#[derive(Debug, Clone, Copy, PartialEq, Eq, Structural)]
pub enum Phase {
    /// Picking and customizing your team.
    TeamSelect,
    RegularSeason,
    Playoffs,
    /// Season over; recap is available.
    Offseason,
    /// The annual draft is running.
    Draft,
    /// The offseason free-agency period is running.
    FreeAgency,
}

/// How a team's season ended, for the recap.
#[derive(Debug, Clone, Copy, PartialEq, Eq, Structural)]
pub enum PlayoffOutcome {
    MissedPlayoffs,
    /// 0 = first round .. 3 = Finals.
    LostInRound(usize),
    WonChampionship,
}

/// End-of-season summary focused on the user's team.
#[derive(Debug, Clone)]
pub struct SeasonRecap {
    pub season: u32,
    pub team_name: String,
    pub wins: u32,
    pub losses: u32,
    pub conference_seed: Option<u32>,
    pub outcome: PlayoffOutcome,
    pub champion_name: String,
    pub best_player: String,
    pub best_player_ovr: u8,
}

/// Compact record of a finished season, kept in league history.
#[derive(Debug, Clone)]
pub struct SeasonHistory {
    pub season: u32,
    pub champion_id: TeamId,
    pub champion_name: String,
    pub user_wins: u32,
    pub user_losses: u32,
    pub user_outcome: PlayoffOutcome,
}

pub struct League {
    pub season: u32,
    pub phase: Phase,
    pub teams: Vec<Team>,
    pub players: Vec<Player>,
    pub schedule: Vec<Game>,
    pub user_team_id: Option<TeamId>,
    pub playoffs: Option<Playoffs>,
    pub history: Vec<SeasonHistory>,
    /// Accumulated regular-season stats, indexed by player id.
    pub season_stats: Vec<SeasonStats>,
    /// Accumulated Finals-only stats (for Finals MVP), indexed by player id.
    pub finals_stats: Vec<SeasonStats>,
    /// The draft, while one is running.
    pub draft: Option<Draft>,
    /// Free agency, while it is running.
    pub free_agency: Option<FreeAgency>,
    /// Awards from the most recently completed season.
    pub awards: Option<Awards>,
    /// The owner's message after the most recently completed season.
    pub owner_message: Option<OwnerMessage>,
    /// Per-player career logs (season-by-season stats + honors), keyed by id.
    pub careers: HashMap<PlayerId, Career>,
    /// Tradeable future draft picks (a rolling window of the next few drafts).
    pub pick_assets: Vec<OwnedPick>,
    pub next_pick_id: u32,
    pub seed: u64,
    pub next_player_id: PlayerId,
}

/// The sum of the salaries of a list of players (ids outside the table count
/// nothing).
pub open spec fn salary_total(players: Seq<Player>, ids: Seq<PlayerId>) -> int
    decreases ids.len(),
{
    if ids.len() == 0 {
        0
    } else {
        salary_total(players, ids.drop_last()) + if (ids.last() as int) < players.len() {
            players[ids.last() as int].contract.salary as int
        } else {
            0int
        }
    }
}

proof fn lemma_salary_total_nonneg(players: Seq<Player>, ids: Seq<PlayerId>)
    ensures
        0 <= salary_total(players, ids),
    decreases ids.len(),
{
    if ids.len() > 0 {
        lemma_salary_total_nonneg(players, ids.drop_last());
    }
}

proof fn lemma_salary_total_prefix(players: Seq<Player>, ids: Seq<PlayerId>, i: int)
    requires
        0 <= i <= ids.len(),
    ensures
        0 <= salary_total(players, ids.take(i)) <= salary_total(players, ids),
    decreases ids.len() - i,
{
    lemma_salary_total_nonneg(players, ids.take(i));
    if i < ids.len() {
        lemma_salary_total_prefix(players, ids, i + 1);
        assert(ids.take(i + 1).drop_last() =~= ids.take(i));
    } else {
        assert(ids.take(i) =~= ids);
    }
}

/// In a league whose rosters are consistent, a player listed on two rosters
/// (or twice) is the same listing: nobody is on two rosters.
pub proof fn lemma_on_one_roster(l: League, t1: int, k1: int, t2: int, k2: int)
    requires
        l.wf(),
        l.rosters_consistent(),
        0 <= t1 < l.teams@.len(),
        0 <= t2 < l.teams@.len(),
        0 <= k1 < l.teams@[t1].roster@.len(),
        0 <= k2 < l.teams@[t2].roster@.len(),
        l.teams@[t1].roster@[k1] == l.teams@[t2].roster@[k2],
    ensures
        t1 == t2,
        k1 == k2,
{
    let x = l.teams@[t1].roster@[k1];
    assert(l.players@[x as int].team == Some(t1 as TeamId));
    assert(l.players@[l.teams@[t2].roster@[k2] as int].team == Some(t2 as TeamId));
    if k1 < k2 {
        assert(l.teams@[t1].roster@[k1] != l.teams@[t1].roster@[k2]);
    } else if k2 < k1 {
        assert(l.teams@[t1].roster@[k2] != l.teams@[t1].roster@[k1]);
    }
}

impl League {
    /// The 32 teams split 16/16 into the conferences (East first), team ids
    /// index the team table, player ids index the player table and
    /// both stats tables line up with it, and rosters name real players.
    pub open spec fn wf(&self) -> bool {
        &&& self.teams@.len() == 32
        &&& forall|i: int| 0 <= i < self.teams@.len() ==> (#[trigger] self.teams@[i]).id == i
        &&& forall|i: int| 0 <= i < self.teams@.len() ==> (#[trigger] self.teams@[i]).conference
            == (if i < 16 { Conference::East } else { Conference::West })
        &&& self.players@.len() < u32::MAX
        &&& forall|i: int| 0 <= i < self.players@.len() ==> (#[trigger] self.players@[i]).id == i
        &&& self.next_player_id == self.players@.len()
        &&& self.season_stats@.len() == self.players@.len()
        &&& forall|t: int, k: int| 0 <= t < self.teams@.len() && 0 <= k < self.teams@[t].roster@.len()
            ==> (#[trigger] self.teams@[t].roster@[k]) < self.players@.len()
    }

    /// Every rostered player is a real player whose team is that roster's
    /// team, and no roster names a player twice: a player is on at most one
    /// roster, once.
    pub open spec fn rosters_consistent(&self) -> bool {
        &&& forall|t: int, k: int| 0 <= t < self.teams@.len() && 0 <= k < self.teams@[t].roster@.len()
            ==> (#[trigger] self.teams@[t].roster@[k]) < self.players@.len()
                && self.players@[self.teams@[t].roster@[k] as int].team == Some(t as TeamId)
        &&& forall|t: int, k1: int, k2: int| 0 <= t < self.teams@.len() && 0 <= k1 < k2 < self.teams@[t].roster@.len()
            ==> #[trigger] self.teams@[t].roster@[k1] != #[trigger] self.teams@[t].roster@[k2]
    }

    /// A team's payroll: the sum of its roster's salaries (0 for an unknown
    /// team).
    pub open spec fn payroll_of(&self, tid: TeamId) -> int {
        if (tid as int) < self.teams@.len() {
            salary_total(self.players@, self.teams@[tid as int].roster@)
        } else {
            0
        }
    }

    /// Total salary (thousands) of a list of players.
    pub fn sum_salary(&self, ids: &[PlayerId]) -> (s: u32)
        requires
            salary_total(self.players@, ids@) <= u32::MAX,
        ensures
            s == salary_total(self.players@, ids@),
    {
        let mut s: u32 = 0;
        let mut i: usize = 0;
        while i < ids.len()
            invariant
                i <= ids@.len(),
                salary_total(self.players@, ids@) <= u32::MAX,
                s == salary_total(self.players@, ids@.take(i as int)),
            decreases ids@.len() - i,
        {
            proof {
                assert(ids@.take(i as int + 1).drop_last() =~= ids@.take(i as int));
                lemma_salary_total_prefix(self.players@, ids@, i as int + 1);
            }
            let pid = ids[i] as usize;
            if pid < self.players.len() {
                s = s + self.players[pid].contract.salary;
            }
            i = i + 1;
        }
        assert(ids@.take(i as int) =~= ids@);
        s
    }

    /// Total payroll (thousands) for a team: the sum of its roster's salaries.
    pub fn team_payroll(&self, tid: TeamId) -> (p: u32)
        requires
            self.wf(),
            self.payroll_of(tid) <= u32::MAX,
        ensures
            p == self.payroll_of(tid),
    {
        if (tid as usize) < self.teams.len() {
            self.sum_salary(self.teams[tid as usize].roster.as_slice())
        } else {
            0
        }
    }

    /// Cap room (can be negative) for a team.
    pub fn team_cap_space(&self, tid: TeamId) -> (c: i64)
        requires
            self.wf(),
            self.payroll_of(tid) <= u32::MAX,
        ensures
            c == SALARY_CAP - self.payroll_of(tid),
    {
        SALARY_CAP as i64 - self.team_payroll(tid) as i64
    }

    /// How many players a team carries (0 for an unknown team).
    pub fn roster_len(&self, tid: TeamId) -> (n: usize)
        requires
            self.wf(),
        ensures
            n == (if (tid as int) < self.teams@.len() { self.teams@[tid as int].roster@.len() } else { 0 }),
    {
        if (tid as usize) < self.teams.len() {
            self.teams[tid as usize].roster.len()
        } else {
            0
        }
    }
}

} // verus!
