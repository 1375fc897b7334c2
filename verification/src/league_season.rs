//! Building a league, the regular season, and front-office settings.

use vstd::prelude::*;
use std::collections::HashMap;
use crate::league::{clamp_int, League, OwnedPick, Phase, PICK_YEARS, TRADE_DEADLINE_DAY};
use crate::player::{n_stats, stat, zero_stats, Player, SeasonStats};
use crate::rng::rng_from_seed;
use crate::schedule::{generate_schedule, season_from, Game, GameResult};
use crate::sim::{accumulate_stats, has_line, lemma_lines_total_prefix, lines_in_table, lines_total, GameSim, PlayerLine};
use crate::team::{default_finances, Finances, Team};
use crate::teams_data::TeamPreset;
use crate::types::{Color, Conference, PlayerId, TeamId};

verus! {

/// The ids of the players whose team is `t`, in id order.
pub open spec fn roster_ids(players: Seq<Player>, t: TeamId) -> Seq<PlayerId>
    decreases players.len(),
{
    if players.len() == 0 {
        Seq::empty()
    } else {
        roster_ids(players.drop_last(), t) + if players.last().team == Some(t) {
            seq![players.last().id]
        } else {
            Seq::<PlayerId>::empty()
        }
    }
}

proof fn lemma_roster_ids_ok(players: Seq<Player>, t: TeamId)
    requires
        forall|i: int| 0 <= i < players.len() ==> (#[trigger] players[i]).id == i,
    ensures
        forall|k: int| 0 <= k < roster_ids(players, t).len() ==> (#[trigger] roster_ids(players, t)[k] as int) < players.len()
            && players[roster_ids(players, t)[k] as int].team == Some(t),
        forall|k1: int, k2: int| 0 <= k1 < k2 < roster_ids(players, t).len()
            ==> roster_ids(players, t)[k1] < roster_ids(players, t)[k2],
    decreases players.len(),
{
    if players.len() > 0 {
        let p = players.drop_last();
        assert forall|i: int| 0 <= i < p.len() implies (#[trigger] p[i]).id == i by {
            assert(p[i] == players[i]);
        }
        lemma_roster_ids_ok(p, t);
        let a = roster_ids(p, t);
        let r = roster_ids(players, t);
        assert forall|k: int| 0 <= k < r.len() implies (#[trigger] r[k] as int) < players.len()
            && players[r[k] as int].team == Some(t) by {
            if k < a.len() {
                assert(r[k] == a[k]);
                assert(p[a[k] as int] == players[a[k] as int]);
            } else {
                assert(r[k] == players.last().id);
            }
        }
        assert forall|k1: int, k2: int| 0 <= k1 < k2 < r.len() implies r[k1] < r[k2] by {
            if k2 < a.len() {
                assert(r[k1] == a[k1] && r[k2] == a[k2]);
            } else {
                assert(r[k1] == a[k1]);
                assert(r[k2] == players.last().id);
            }
        }
    }
}

/// `new` is `old` with one game's box score folded in, as `accumulate_stats`
/// does it: each player's totals grow by the sum of his lines.
pub open spec fn box_applied(old: Seq<SeasonStats>, new: Seq<SeasonStats>, lines: Seq<PlayerLine>) -> bool {
    &&& new.len() == old.len()
    &&& forall|j: int, k: int| 0 <= j < old.len() && 0 <= k < n_stats() ==>
        #[trigger] stat(new[j], k) == stat(old[j], k) + lines_total(lines, j, k)
    &&& forall|j: int| 0 <= j < old.len() && !has_line(lines, j) ==> #[trigger] new[j] == old[j]
}

/// Player `i` of a fresh league belongs to team `i / 14`.
pub open spec fn in_blocks_of_fourteen(players: Seq<Player>) -> bool {
    forall|i: int| 0 <= i < players.len() ==> (#[trigger] players[i]).id == i
        && players[i].team == Some((i / 14) as TeamId)
}

proof fn lemma_block_of(i: int, t: int)
    requires
        0 <= i,
        0 <= t,
    ensures
        (i / 14 == t) <==> (14 * t <= i < 14 * t + 14),
{
    assert((i / 14 == t) <==> (14 * t <= i < 14 * t + 14)) by (nonlinear_arith)
        requires 0 <= i, 0 <= t;
}

proof fn lemma_block_rosters(players: Seq<Player>, t: int, n: int)
    requires
        in_blocks_of_fourteen(players),
        players.len() <= 32 * 14,
        0 <= t < 32,
        0 <= n <= players.len(),
    ensures
        roster_ids(players.take(n), t as TeamId) == Seq::new(
            (if n <= 14 * t { 0 } else if n >= 14 * t + 14 { 14 } else { n - 14 * t }) as nat,
            |k: int| (14 * t + k) as PlayerId),
    decreases n,
{
    if n == 0 {
        assert(players.take(0) =~= Seq::<Player>::empty());
        assert(Seq::new(0, |k: int| (14 * t + k) as PlayerId) =~= Seq::<PlayerId>::empty());
    } else {
        lemma_block_rosters(players, t, n - 1);
        let pre = players.take(n - 1);
        assert(players.take(n).drop_last() =~= pre);
        assert(players.take(n).last() == players[n - 1]);
        lemma_block_of(n - 1, t);
        assert((((n - 1) / 14) as TeamId == t as TeamId) <==> ((n - 1) / 14 == t)) by {
            assert((n - 1) / 14 < 32) by (nonlinear_arith) requires 0 <= n - 1 < 32 * 14;
        }
        let cnt = if n <= 14 * t { 0 } else if n >= 14 * t + 14 { 14 } else { n - 14 * t };
        assert(roster_ids(players.take(n), t as TeamId) =~= Seq::new(cnt as nat, |k: int| (14 * t + k) as PlayerId));
    }
}

/// A league assembled from players dealt out fourteen to a team, in team
/// order, gives every team a roster of exactly its fourteen players.
pub proof fn lemma_new_league_rosters(players: Seq<Player>, t: int)
    requires
        players.len() == 32 * 14,
        in_blocks_of_fourteen(players),
        0 <= t < 32,
    ensures
        roster_ids(players, t as TeamId) == Seq::new(14, |k: int| (14 * t + k) as PlayerId),
        roster_ids(players, t as TeamId).len() == 14,
{
    lemma_block_rosters(players, t, players.len() as int);
    assert(players.take(players.len() as int) =~= players);
}

/// The pick records for drafts not yet held, in order.
pub open spec fn current_picks(picks: Seq<OwnedPick>, season: u32) -> Seq<OwnedPick> {
    picks.filter(|pk: OwnedPick| pk.season >= season)
}

/// The seasons covered by the tradeable-pick window that starts at `season`.
pub open spec fn in_pick_window(season: u32, yr: int) -> bool {
    season <= yr < season + PICK_YEARS
}

/// Some pick conveys the given draft slot.
pub open spec fn has_pick_for(picks: Seq<OwnedPick>, yr: int, round: int, tid: int) -> bool {
    exists|k: int| 0 <= k < picks.len() && (#[trigger] picks[k]).season == yr
        && picks[k].round == round && picks[k].original == tid
}

/// The window law: every team holds a pick record (by original slot) for both
/// rounds of every draft in the window, no record is stale, and records are
/// unique per slot.
pub open spec fn picks_cover_window(picks: Seq<OwnedPick>, season: u32, n_teams: int) -> bool {
    &&& forall|yr: int, round: int, tid: int| in_pick_window(season, yr) && 1 <= round <= 2 && 0 <= tid < n_teams
        ==> #[trigger] has_pick_for(picks, yr, round, tid)
    &&& forall|k: int| 0 <= k < picks.len() ==> (#[trigger] picks[k]).season >= season
}

impl League {
    /// Build a fresh league from team presets and a generated player pool
    /// (player `i` has id `i` and names his team by preset index). Rosters
    /// follow the players' teams in id order, every team starts from the
    /// default finances, the tradeable-pick window is seeded, and a full
    /// schedule is drawn. Starts in `TeamSelect`.
    pub fn assemble(seed: u64, presets: &Vec<TeamPreset>, players: Vec<Player>) -> (league: League)
        requires
            presets@.len() == 32,
            forall|i: int| 0 <= i < 16 ==> (#[trigger] presets@[i]).conference == Conference::East,
            forall|i: int| 16 <= i < 32 ==> (#[trigger] presets@[i]).conference == Conference::West,
            players@.len() < u32::MAX,
            forall|i: int| 0 <= i < players@.len() ==> (#[trigger] players@[i]).id == i,
        ensures
            league.wf(),
            league.rosters_consistent(),
            league.season == 1,
            league.phase == Phase::TeamSelect,
            league.players@ == players@,
            league.teams@.len() == 32,
            forall|i: int| 0 <= i < 32 ==> {
                let t = #[trigger] league.teams@[i];
                &&& t.location@ == presets@[i].location@
                &&& t.name@ == presets@[i].name@
                &&& t.abbrev@ == presets@[i].abbrev@
                &&& t.primary.0@ == presets@[i].primary@
                &&& t.secondary.0@ == presets@[i].secondary@
                &&& t.conference == presets@[i].conference
                &&& t.roster@ == roster_ids(players@, i as TeamId)
                &&& t.wins == 0 && t.losses == 0
                &&& t.finances == default_finances()
            },
            league.season_stats@.len() == players@.len(),
            forall|j: int| 0 <= j < players@.len() ==> #[trigger] league.season_stats@[j] == zero_stats(),
            league.finals_stats@.len() == 0,
            league.user_team_id is None,
            league.playoffs is None,
            league.history@.len() == 0,
            league.draft is None,
            league.free_agency is None,
            league.awards is None,
            league.owner_message is None,
            league.careers@ == Map::<PlayerId, crate::player::Career>::empty(),
            league.seed == seed,
            picks_cover_window(league.pick_assets@, 1, 32),
            exists|s: Seq<TeamId>| #![trigger season_from(s)] s.len() == 32
                && s.to_multiset() == Seq::new(32, |i: int| i as TeamId).to_multiset()
                && league.schedule@ == season_from(s),
    {
        let mut teams: Vec<Team> = Vec::new();
        let mut i: usize = 0;
        while i < 32
            invariant
                presets@.len() == 32,
                i <= 32,
                teams@.len() == i,
                forall|j: int| 0 <= j < i ==> {
                    let t = #[trigger] teams@[j];
                    &&& t.id == j
                    &&& t.location@ == presets@[j].location@
                    &&& t.name@ == presets@[j].name@
                    &&& t.abbrev@ == presets@[j].abbrev@
                    &&& t.primary.0@ == presets@[j].primary@
                    &&& t.secondary.0@ == presets@[j].secondary@
                    &&& t.conference == presets@[j].conference
                    &&& t.roster@.len() == 0
                    &&& t.wins == 0 && t.losses == 0
                    &&& t.finances == default_finances()
                },
            decreases 32 - i,
        {
            let p = &presets[i];
            teams.push(Team {
                id: i as TeamId,
                location: String::from_str(p.location),
                name: String::from_str(p.name),
                abbrev: String::from_str(p.abbrev),
                primary: p.primary_color(),
                secondary: p.secondary_color(),
                conference: p.conference,
                roster: Vec::new(),
                wins: 0,
                losses: 0,
                finances: Finances::default(),
            });
            i = i + 1;
        }
        // Rosters, in player-id order.
        let mut k: usize = 0;
        while k < players.len()
            invariant
                k <= players@.len(),
                players@.len() < u32::MAX,
                forall|i: int| 0 <= i < players@.len() ==> (#[trigger] players@[i]).id == i,
                teams@.len() == 32,
                forall|j: int| 0 <= j < 32 ==> {
                    let t = #[trigger] teams@[j];
                    &&& t.id == j
                    &&& t.location@ == presets@[j].location@
                    &&& t.name@ == presets@[j].name@
                    &&& t.abbrev@ == presets@[j].abbrev@
                    &&& t.primary.0@ == presets@[j].primary@
                    &&& t.secondary.0@ == presets@[j].secondary@
                    &&& t.conference == presets@[j].conference
                    &&& t.roster@ == roster_ids(players@.take(k as int), j as TeamId)
                    &&& t.wins == 0 && t.losses == 0
                    &&& t.finances == default_finances()
                },
                forall|j: int, q: int| 0 <= j < 32 && 0 <= q < teams@[j].roster@.len()
                    ==> (#[trigger] teams@[j].roster@[q]) < k,
            decreases players@.len() - k,
        {
            proof {
                assert(players@.take(k as int + 1).drop_last() =~= players@.take(k as int));
            }
            match players[k].team {
                Some(t) => {
                    if (t as usize) < teams.len() {
                        teams[t as usize].roster.push(k as PlayerId);
                    }
                }
                None => {}
            }
            k = k + 1;
            proof {
                assert forall|j: int| 0 <= j < 32 implies (#[trigger] teams@[j]).roster@
                    == roster_ids(players@.take(k as int), j as TeamId) by {
                    assert(players@.take(k as int).last() == players@[k as int - 1]);
                }
            }
        }
        assert(players@.take(players@.len() as int) =~= players@);
        let n = players.len();
        let mut season_stats: Vec<SeasonStats> = Vec::new();
        let mut q: usize = 0;
        while q < n
            invariant
                q <= n,
                season_stats@.len() == q,
                forall|j: int| 0 <= j < q ==> #[trigger] season_stats@[j] == zero_stats(),
            decreases n - q,
        {
            season_stats.push(SeasonStats::new());
            q = q + 1;
        }
        let mut ids: Vec<TeamId> = Vec::new();
        let mut t: u32 = 0;
        while t < 32
            invariant
                t <= 32,
                ids@ == Seq::new(t as nat, |i: int| i as TeamId),
            decreases 32 - t,
        {
            ids.push(t);
            t = t + 1;
            assert(ids@ =~= Seq::new(t as nat, |i: int| i as TeamId));
        }
        let mut sched_rng = rng_from_seed(seed ^ 0x5C4ED);
        let schedule = generate_schedule(ids.as_slice(), &mut sched_rng);
        let mut league = League {
            season: 1,
            phase: Phase::TeamSelect,
            teams,
            players,
            schedule,
            user_team_id: None,
            playoffs: None,
            history: Vec::new(),
            season_stats,
            finals_stats: Vec::new(),
            draft: None,
            free_agency: None,
            awards: None,
            owner_message: None,
            careers: HashMap::new(),
            pick_assets: Vec::new(),
            next_pick_id: 0,
            seed,
            next_player_id: n as PlayerId,
        };
        league.ensure_pick_assets();
        proof {
            assert forall|t: int, k: int| 0 <= t < league.teams@.len() && 0 <= k < league.teams@[t].roster@.len()
                implies (#[trigger] league.teams@[t].roster@[k]) < league.players@.len()
                    && league.players@[league.teams@[t].roster@[k] as int].team == Some(t as TeamId) by {
                lemma_roster_ids_ok(players@, t as TeamId);
            }
            assert forall|t: int, k1: int, k2: int| 0 <= t < league.teams@.len() && 0 <= k1 < k2 < league.teams@[t].roster@.len()
                implies #[trigger] league.teams@[t].roster@[k1] != #[trigger] league.teams@[t].roster@[k2] by {
                lemma_roster_ids_ok(players@, t as TeamId);
            }
        }
        league
    }

    /// Make sure every team owns a record for its own 1st and 2nd in each
    /// draft of the rolling window `[season ..= season + PICK_YEARS - 1]`:
    /// stale records (drafts already held) are dropped, existing records are
    /// kept untouched (including traded ones), and each missing slot gets a
    /// fresh record owned by its original team.
    pub fn ensure_pick_assets(&mut self)
        requires
            old(self).wf(),
            old(self).season + PICK_YEARS <= u32::MAX,
            old(self).next_pick_id + 512 <= u32::MAX,
        ensures
            final(self).wf(),
            final(self).teams == old(self).teams,
            final(self).players == old(self).players,
            final(self).season == old(self).season,
            picks_cover_window(final(self).pick_assets@, final(self).season, final(self).teams@.len() as int),
            // Records that were still current are kept, unchanged and in order.
            final(self).pick_assets@.take(current_picks(old(self).pick_assets@, old(self).season).len() as int)
                == current_picks(old(self).pick_assets@, old(self).season),
            // New records are the team's own, with fresh ids.
            forall|k: int| current_picks(old(self).pick_assets@, old(self).season).len() <= k
                < final(self).pick_assets@.len() ==> {
                    let pk = #[trigger] final(self).pick_assets@[k];
                    &&& pk.owner == pk.original
                    &&& old(self).next_pick_id <= pk.id < final(self).next_pick_id
                    &&& in_pick_window(old(self).season, pk.season as int)
                    &&& 1 <= pk.round <= 2
                    &&& (pk.original as int) < old(self).teams@.len()
                },
            old(self).next_pick_id <= final(self).next_pick_id,
            final(self).schedule == old(self).schedule,
            final(self).season_stats == old(self).season_stats,
            final(self).finals_stats == old(self).finals_stats,
            final(self).phase == old(self).phase,
            final(self).user_team_id == old(self).user_team_id,
            final(self).draft == old(self).draft,
            final(self).free_agency == old(self).free_agency,
            final(self).playoffs == old(self).playoffs,
            final(self).history == old(self).history,
            final(self).careers == old(self).careers,
            final(self).awards == old(self).awards,
            final(self).owner_message == old(self).owner_message,
            final(self).seed == old(self).seed,
            final(self).next_player_id == old(self).next_player_id,
    {
        let season = self.season;
        let ghost kept = current_picks(self.pick_assets@, season);
        // Drop stale picks for drafts that already happened.
        let mut picks: Vec<OwnedPick> = Vec::new();
        let mut i: usize = 0;
        while i < self.pick_assets.len()
            invariant
                i <= self.pick_assets@.len(),
                season == self.season,
                picks@ == current_picks(self.pick_assets@.take(i as int), season),
            decreases self.pick_assets@.len() - i,
        {
            let pk = self.pick_assets[i];
            proof {
                assert(self.pick_assets@.take(i as int + 1).drop_last() =~= self.pick_assets@.take(i as int));
                reveal_with_fuel(Seq::filter, 1);
            }
            if pk.season >= season {
                picks.push(pk);
            }
            i = i + 1;
        }
        assert(self.pick_assets@.take(i as int) =~= self.pick_assets@);
        assert forall|k: int| 0 <= k < picks@.len() implies (#[trigger] picks@[k]).season >= season by {
            self.pick_assets@.lemma_filter_pred(|pk: OwnedPick| pk.season >= season, k);
        }
        let n_teams = self.teams.len() as u32;
        let mut next = self.next_pick_id;
        let mut yr = season;
        while yr < season + PICK_YEARS
            invariant
                season <= yr <= season + PICK_YEARS,
                season + PICK_YEARS <= u32::MAX,
                n_teams as int == self.teams@.len(),
                n_teams <= 64,
                self.next_pick_id <= next,
                next <= self.next_pick_id + 2 * (n_teams * (yr - season)),
                self.next_pick_id + 512 <= u32::MAX,
                picks@.take(kept.len() as int) == kept,
                kept.len() <= picks@.len(),
                forall|k: int| 0 <= k < picks@.len() ==> (#[trigger] picks@[k]).season >= season,
                forall|k: int| kept.len() <= k < picks@.len() ==> {
                    let pk = #[trigger] picks@[k];
                    &&& pk.owner == pk.original
                    &&& self.next_pick_id <= pk.id < next
                    &&& season <= pk.season < yr
                    &&& 1 <= pk.round <= 2
                    &&& (pk.original as int) < n_teams
                },
                forall|y: int, round: int, tid: int| season <= y < yr && 1 <= round <= 2 && 0 <= tid < n_teams
                    ==> #[trigger] has_pick_for(picks@, y, round, tid),
            decreases season + PICK_YEARS - yr,
        {
            let mut tid: u32 = 0;
            while tid < n_teams
                invariant
                    season <= yr < season + PICK_YEARS,
                    season + PICK_YEARS <= u32::MAX,
                    tid <= n_teams,
                    n_teams as int == self.teams@.len(),
                    n_teams <= 64,
                    self.next_pick_id <= next,
                    next <= self.next_pick_id + 2 * (n_teams * (yr - season) + tid),
                    self.next_pick_id + 512 <= u32::MAX,
                    picks@.take(kept.len() as int) == kept,
                    kept.len() <= picks@.len(),
                    forall|k: int| 0 <= k < picks@.len() ==> (#[trigger] picks@[k]).season >= season,
                    forall|k: int| kept.len() <= k < picks@.len() ==> {
                        let pk = #[trigger] picks@[k];
                        &&& pk.owner == pk.original
                        &&& self.next_pick_id <= pk.id < next
                        &&& season <= pk.season <= yr
                        &&& 1 <= pk.round <= 2
                        &&& (pk.original as int) < n_teams
                    },
                    forall|y: int, round: int, t: int| season <= y < yr && 1 <= round <= 2 && 0 <= t < n_teams
                        ==> #[trigger] has_pick_for(picks@, y, round, t),
                    forall|round: int, t: int| 1 <= round <= 2 && 0 <= t < tid
                        ==> #[trigger] has_pick_for(picks@, yr as int, round, t),
                decreases n_teams - tid,
            {
                let mut round: u8 = 1;
                while round <= 2
                    invariant
                        season <= yr < season + PICK_YEARS,
                        season + PICK_YEARS <= u32::MAX,
                        tid < n_teams,
                        1 <= round <= 3,
                        n_teams as int == self.teams@.len(),
                        n_teams <= 64,
                        self.next_pick_id <= next,
                        next <= self.next_pick_id + 2 * (n_teams * (yr - season) + tid) + (round - 1),
                        self.next_pick_id + 512 <= u32::MAX,
                        picks@.take(kept.len() as int) == kept,
                        kept.len() <= picks@.len(),
                        forall|k: int| 0 <= k < picks@.len() ==> (#[trigger] picks@[k]).season >= season,
                        forall|k: int| kept.len() <= k < picks@.len() ==> {
                            let pk = #[trigger] picks@[k];
                            &&& pk.owner == pk.original
                            &&& self.next_pick_id <= pk.id < next
                            &&& season <= pk.season <= yr
                            &&& 1 <= pk.round <= 2
                            &&& (pk.original as int) < n_teams
                        },
                        forall|y: int, r: int, t: int| season <= y < yr && 1 <= r <= 2 && 0 <= t < n_teams
                            ==> #[trigger] has_pick_for(picks@, y, r, t),
                        forall|r: int, t: int| 1 <= r <= 2 && 0 <= t < tid
                            ==> #[trigger] has_pick_for(picks@, yr as int, r, t),
                        forall|r: int| 1 <= r < round ==> #[trigger] has_pick_for(picks@, yr as int, r, tid as int),
                    decreases 3 - round,
                {
                    let mut exists = false;
                    let mut j: usize = 0;
                    while j < picks.len()
                        invariant
                            j <= picks@.len(),
                            exists ==> has_pick_for(picks@, yr as int, round as int, tid as int),
                        decreases picks@.len() - j,
                    {
                        if picks[j].season == yr && picks[j].round == round && picks[j].original == tid {
                            assert(has_pick_for(picks@, yr as int, round as int, tid as int)) by {
                                assert(picks@[j as int].season == yr);
                            }
                            exists = true;
                        }
                        j = j + 1;
                    }
                    if !exists {
                        assert(n_teams * (yr - season) + tid <= 255) by (nonlinear_arith)
                            requires n_teams <= 64, 0 <= yr - season <= 3, tid < n_teams;
                        let ghost before = picks@;
                        picks.push(OwnedPick { id: next, season: yr, round, original: tid, owner: tid });
                        assert(picks@.take(kept.len() as int) =~= before.take(kept.len() as int));
                        assert forall|y: int, r: int, t: int| has_pick_for(before, y, r, t)
                            implies #[trigger] has_pick_for(picks@, y, r, t) by {
                            let k = choose|k: int| 0 <= k < before.len() && (#[trigger] before[k]).season == y
                                && before[k].round == r && before[k].original == t;
                            assert(picks@[k] == before[k]);
                        }
                        assert(picks@[before.len() as int].season == yr);
                        next = next + 1;
                    }
                    round = round + 1;
                }
                tid = tid + 1;
            }
            assert(n_teams * (yr - season) + n_teams == n_teams * (yr + 1 - season)) by (nonlinear_arith);
            yr = yr + 1;
        }
        self.pick_assets = picks;
        self.next_pick_id = next;
    }
}


/// The indices of the not-yet-played games on a day, in schedule order.
pub open spec fn day_game_indices(s: Seq<Game>, day: u32) -> Seq<usize>
    decreases s.len(),
{
    if s.len() == 0 {
        Seq::empty()
    } else {
        day_game_indices(s.drop_last(), day) + if s.last().day == day && s.last().result is None {
            seq![(s.len() - 1) as usize]
        } else {
            Seq::<usize>::empty()
        }
    }
}

/// A team's record after one more game: a win or a loss for the two sides,
/// everyone else untouched.
pub open spec fn record_after(t: Team, home: TeamId, away: TeamId, home_won: bool) -> Team {
    if t.id == home {
        if home_won { Team { wins: (t.wins + 1) as u32, ..t } } else { Team { losses: (t.losses + 1) as u32, ..t } }
    } else if t.id == away {
        if home_won { Team { losses: (t.losses + 1) as u32, ..t } } else { Team { wins: (t.wins + 1) as u32, ..t } }
    } else {
        t
    }
}

/// A recorded game adds exactly one game to each side's record: a win to
/// the side that scored more, a loss to the other, and nothing to anyone
/// else; the two teams' combined games played go up by two.
pub proof fn lemma_game_record(t: Team, u: Team, v: Team, home: TeamId, away: TeamId, home_score: u32, away_score: u32)
    requires
        t.id == home,
        u.id == away,
        home != away,
        t.wins < u32::MAX && t.losses < u32::MAX,
        u.wins < u32::MAX && u.losses < u32::MAX,
    ensures
        ({
            let t2 = record_after(t, home, away, home_score > away_score);
            let u2 = record_after(u, home, away, home_score > away_score);
            &&& t2.wins + t2.losses == t.wins + t.losses + 1
            &&& u2.wins + u2.losses == u.wins + u.losses + 1
            &&& (home_score > away_score ==> t2.wins == t.wins + 1 && u2.losses == u.losses + 1)
            &&& (home_score <= away_score ==> t2.losses == t.losses + 1 && u2.wins == u.wins + 1)
        }),
        v.id != home && v.id != away ==> record_after(v, home, away, home_score > away_score) == v,
{
}

/// Room for one more win and one more loss for both sides of a game.
pub open spec fn record_fits(teams: Seq<Team>, home: TeamId, away: TeamId) -> bool {
    &&& (home as int) < teams.len() ==> teams[home as int].wins < u32::MAX && teams[home as int].losses < u32::MAX
    &&& (away as int) < teams.len() ==> teams[away as int].wins < u32::MAX && teams[away as int].losses < u32::MAX
}

/// A box score that can be folded into a stats table: every line names a
/// player in the table, and no total overflows once both sides are in.
pub open spec fn sim_fits(stats: Seq<SeasonStats>, sim: GameSim) -> bool {
    &&& lines_in_table(sim.home.lines@, stats.len() as int)
    &&& lines_in_table(sim.away.lines@, stats.len() as int)
    &&& forall|j: int, k: int| 0 <= j < stats.len() && 0 <= k < n_stats()
        ==> stat(stats[j], k) + lines_total(sim.home.lines@, j, k) + #[trigger] lines_total(sim.away.lines@, j, k) <= u32::MAX
}

/// Fold a full game's box score into a stats table: home side, then away.
pub fn accumulate_game(stats: &mut Vec<SeasonStats>, sim: &GameSim)
    requires
        sim_fits(old(stats)@, *sim),
    ensures
        exists|mid: Seq<SeasonStats>| box_applied(old(stats)@, mid, sim.home.lines@)
            && #[trigger] box_applied(mid, final(stats)@, sim.away.lines@),
{
    let ghost s0 = stats@;
    proof {
        assert forall|j: int, k: int| 0 <= j < s0.len() && 0 <= k < n_stats()
            implies stat(s0[j], k) + #[trigger] lines_total(sim.home.lines@, j, k) <= u32::MAX by {
            lemma_lines_total_prefix(sim.away.lines@, 0, j, k);
            assert(stat(s0[j], k) + lines_total(sim.home.lines@, j, k) + lines_total(sim.away.lines@, j, k) <= u32::MAX);
        }
    }
    accumulate_stats(stats, &sim.home);
    let ghost s1 = stats@;
    proof {
        assert forall|j: int, k: int| 0 <= j < s1.len() && 0 <= k < n_stats()
            implies stat(s1[j], k) + #[trigger] lines_total(sim.away.lines@, j, k) <= u32::MAX by {
            assert(stat(s1[j], k) == stat(s0[j], k) + lines_total(sim.home.lines@, j, k));
        }
    }
    accumulate_stats(stats, &sim.away);
    assert(box_applied(s0, s1, sim.home.lines@));
    assert(box_applied(s1, stats@, sim.away.lines@));
}

impl League {
    /// Choose which team the user controls and move into the regular season.
    pub fn select_team(&mut self, team_id: TeamId)
        ensures
            *final(self) == (League { user_team_id: Some(team_id), phase: Phase::RegularSeason, ..*old(self) }),
    {
        self.user_team_id = Some(team_id);
        self.phase = Phase::RegularSeason;
    }

    /// Edit the user-facing fields of a team (used by the team builder UI).
    /// An unknown team id changes nothing.
    pub fn customize_team(
        &mut self,
        team_id: TeamId,
        name: Option<String>,
        abbrev: Option<String>,
        primary: Option<Color>,
        secondary: Option<Color>,
    )
        requires
            old(self).wf(),
        ensures
            final(self).wf(),
            (team_id as int) >= old(self).teams@.len() ==> *final(self) == *old(self),
            *final(self) == (League { teams: final(self).teams, ..*old(self) }),
            (team_id as int) < old(self).teams@.len() ==> final(self).teams@ == old(self).teams@.update(team_id as int, Team {
                    name: match name { Some(n) => n, None => old(self).teams@[team_id as int].name },
                    abbrev: match abbrev { Some(a) => a, None => old(self).teams@[team_id as int].abbrev },
                    primary: match primary { Some(c) => c, None => old(self).teams@[team_id as int].primary },
                    secondary: match secondary { Some(c) => c, None => old(self).teams@[team_id as int].secondary },
                    ..old(self).teams@[team_id as int]
                }),
    {
        let ghost old_teams = self.teams@;
        let i = team_id as usize;
        if i < self.teams.len() {
            if let Some(n) = name {
                self.teams[i].name = n;
            }
            if let Some(a) = abbrev {
                self.teams[i].abbrev = a;
            }
            if let Some(c) = primary {
                self.teams[i].primary = c;
            }
            if let Some(c) = secondary {
                self.teams[i].secondary = c;
            }
        }
    }

    /// The next day with unplayed games, or `None` if the season is over.
    pub fn current_day(&self) -> (d: Option<u32>)
        ensures
            d is None <==> forall|k: int| 0 <= k < self.schedule@.len() ==> (#[trigger] self.schedule@[k]).result is Some,
            d matches Some(day) ==> (exists|k: int| 0 <= k < self.schedule@.len()
                && (#[trigger] self.schedule@[k]).result is None && self.schedule@[k].day == day)
                && forall|k: int| 0 <= k < self.schedule@.len() && (#[trigger] self.schedule@[k]).result is None
                    ==> day <= self.schedule@[k].day,
    {
        let mut best: Option<u32> = None;
        let mut i: usize = 0;
        while i < self.schedule.len()
            invariant
                i <= self.schedule@.len(),
                best is None <==> forall|k: int| 0 <= k < i ==> (#[trigger] self.schedule@[k]).result is Some,
                best matches Some(day) ==> (exists|k: int| 0 <= k < i
                    && (#[trigger] self.schedule@[k]).result is None && self.schedule@[k].day == day)
                    && forall|k: int| 0 <= k < i && (#[trigger] self.schedule@[k]).result is None
                        ==> day <= self.schedule@[k].day,
            decreases self.schedule@.len() - i,
        {
            let g = self.schedule[i];
            if g.result.is_none() {
                match best {
                    None => {
                        best = Some(g.day);
                    }
                    Some(b) => {
                        if g.day < b {
                            best = Some(g.day);
                        }
                    }
                }
            }
            i = i + 1;
        }
        best
    }

    pub fn regular_season_complete(&self) -> (b: bool)
        ensures
            b <==> forall|k: int| 0 <= k < self.schedule@.len() ==> (#[trigger] self.schedule@[k]).result is Some,
    {
        self.current_day().is_none()
    }

    /// The schedule indices of the games still to be played on a day.
    pub fn day_games(&self, day: u32) -> (idx: Vec<usize>)
        ensures
            idx@ == day_game_indices(self.schedule@, day),
    {
        let mut idx: Vec<usize> = Vec::new();
        let mut i: usize = 0;
        while i < self.schedule.len()
            invariant
                i <= self.schedule@.len(),
                idx@ == day_game_indices(self.schedule@.take(i as int), day),
            decreases self.schedule@.len() - i,
        {
            proof {
                assert(self.schedule@.take(i as int + 1).drop_last() =~= self.schedule@.take(i as int));
            }
            if self.schedule[i].day == day && self.schedule[i].result.is_none() {
                idx.push(i);
            }
            i = i + 1;
        }
        assert(self.schedule@.take(i as int) =~= self.schedule@);
        idx
    }

    /// Apply one simulated game to scheduled game `idx`: fold both box scores
    /// into the season stats, give the winner a win and the loser a loss, and
    /// store the final score.
    pub fn record_game(&mut self, idx: usize, sim: &GameSim)
        requires
            old(self).wf(),
            idx < old(self).schedule@.len(),
            sim_fits(old(self).season_stats@, *sim),
            sim.home.team_id != sim.away.team_id,
            record_fits(old(self).teams@, sim.home.team_id, sim.away.team_id),
        ensures
            final(self).wf(),
            final(self).schedule@ == old(self).schedule@.update(idx as int, Game {
                result: Some(GameResult { home_score: sim.home.score, away_score: sim.away.score }),
                ..old(self).schedule@[idx as int]
            }),
            exists|mid: Seq<SeasonStats>| box_applied(old(self).season_stats@, mid, sim.home.lines@)
                && #[trigger] box_applied(mid, final(self).season_stats@, sim.away.lines@),
            final(self).teams@.len() == old(self).teams@.len(),
            forall|t: int| 0 <= t < old(self).teams@.len() ==> #[trigger] final(self).teams@[t]
                == record_after(old(self).teams@[t], sim.home.team_id, sim.away.team_id, sim.home.score > sim.away.score),
            *final(self) == (League { teams: final(self).teams, schedule: final(self).schedule,
                season_stats: final(self).season_stats, ..*old(self) }),
            old(self).rosters_consistent() ==> final(self).rosters_consistent(),
    {
        let ghost old_teams = self.teams@;
        accumulate_game(&mut self.season_stats, sim);
        let res = GameResult { home_score: sim.home.score, away_score: sim.away.score };
        let home_won = res.home_won();
        let h = sim.home.team_id as usize;
        let a = sim.away.team_id as usize;
        if h < self.teams.len() {
            if home_won {
                self.teams[h].wins = self.teams[h].wins + 1;
            } else {
                self.teams[h].losses = self.teams[h].losses + 1;
            }
        }
        if a < self.teams.len() {
            if home_won {
                self.teams[a].losses = self.teams[a].losses + 1;
            } else {
                self.teams[a].wins = self.teams[a].wins + 1;
            }
        }
        let mut g = self.schedule[idx];
        g.result = Some(res);
        self.schedule.set(idx, g);
        assert forall|t: int| 0 <= t < old_teams.len() implies #[trigger] self.teams@[t]
            == record_after(old_teams[t], sim.home.team_id, sim.away.team_id, home_won) by {
            assert(old_teams[t].id == t);
        }
    }

    /// Can a trade be made right now? (In-season before the deadline, or in
    /// the offseason.)
    pub fn can_trade(&self) -> (b: bool)
        ensures
            b == match self.phase {
                Phase::RegularSeason => exists|k: int| 0 <= k < self.schedule@.len()
                    && (#[trigger] self.schedule@[k]).result is None && self.schedule@[k].day < TRADE_DEADLINE_DAY,
                Phase::Offseason => true,
                _ => false,
            },
    {
        match self.phase {
            Phase::RegularSeason => match self.current_day() {
                Some(d) => d < TRADE_DEADLINE_DAY,
                None => false,
            },
            Phase::Offseason => true,
            _ => false,
        }
    }

    /// Update the user team's finance settings: prices are held to $10–$300
    /// (tickets) and $5–$100 (concessions), budgets to at most 40,000.
    pub fn set_user_finances(&mut self, ticket: u32, concession: u32, coaching: u32, training: u32, facilities: u32, marketing: u32)
        requires
            old(self).wf(),
        ensures
            final(self).wf(),
            match old(self).user_team_id {
                Some(u) if (u as int) < old(self).teams@.len() => *final(self) == (League { teams: final(self).teams, ..*old(self) })
                    && final(self).teams@ == old(self).teams@.update(u as int, Team {
                        finances: Finances {
                            ticket_price: clamp_int(ticket as int, 10, 300) as u32,
                            concession_price: clamp_int(concession as int, 5, 100) as u32,
                            coaching: if coaching < 40_000 { coaching } else { 40_000 },
                            training: if training < 40_000 { training } else { 40_000 },
                            facilities: if facilities < 40_000 { facilities } else { 40_000 },
                            marketing: if marketing < 40_000 { marketing } else { 40_000 },
                            ..old(self).teams@[u as int].finances
                        },
                        ..old(self).teams@[u as int]
                    }),
                _ => *final(self) == *old(self),
            },
    {
        let Some(user) = self.user_team_id else { return };
        let u = user as usize;
        if u < self.teams.len() {
            let mut f = self.teams[u].finances;
            f.ticket_price = if ticket < 10 { 10 } else if ticket > 300 { 300 } else { ticket };
            f.concession_price = if concession < 5 { 5 } else if concession > 100 { 100 } else { concession };
            f.coaching = if coaching < 40_000 { coaching } else { 40_000 };
            f.training = if training < 40_000 { training } else { 40_000 };
            f.facilities = if facilities < 40_000 { facilities } else { 40_000 };
            f.marketing = if marketing < 40_000 { marketing } else { 40_000 };
            self.teams[u].finances = f;
        }
    }

    /// Cost (thousands) of the next arena expansion: 12 per current seat.
    pub fn stadium_upgrade_cost(&self, tid: TeamId) -> (c: u32)
        requires
            (tid as int) < self.teams@.len() ==> self.teams@[tid as int].finances.capacity * 12 <= u32::MAX,
        ensures
            c == (if (tid as int) < self.teams@.len() { self.teams@[tid as int].finances.capacity * 12 } else { 0 }),
    {
        if (tid as usize) < self.teams.len() {
            self.teams[tid as usize].finances.capacity * 12
        } else {
            0
        }
    }

    /// The owner only funds an expansion the team has earned — an arena under
    /// 30,000 seats with high fan interest or demand it cannot meet. (The two
    /// conditions come from the money model.)
    pub fn can_upgrade_stadium(&self, tid: TeamId, high_interest: bool, unmet_demand: bool) -> (b: bool)
        ensures
            b == ((tid as int) < self.teams@.len() && self.teams@[tid as int].finances.capacity < 30_000
                && (high_interest || unmet_demand)),
    {
        if (tid as usize) >= self.teams.len() {
            return false;
        }
        if self.teams[tid as usize].finances.capacity >= 30_000 {
            return false;
        }
        high_interest || unmet_demand
    }

    /// Expand and renovate the user's arena when the owner will fund it:
    /// +3,000 seats (up to 30,000), a reset age, and one more expansion on
    /// the count. Returns success.
    pub fn upgrade_stadium(&mut self, high_interest: bool, unmet_demand: bool) -> (ok: bool)
        requires
            old(self).wf(),
            old(self).user_team_id matches Some(u) ==> ((u as int) < old(self).teams@.len()
                ==> old(self).teams@[u as int].finances.stadium_upgrades < u32::MAX),
        ensures
            final(self).wf(),
            ok == match old(self).user_team_id {
                Some(u) => (u as int) < old(self).teams@.len() && old(self).teams@[u as int].finances.capacity < 30_000
                    && (high_interest || unmet_demand),
                None => false,
            },
            !ok ==> *final(self) == *old(self),
            *final(self) == (League { teams: final(self).teams, ..*old(self) }),
            ok ==> final(self).teams@ == old(self).teams@.update(old(self).user_team_id.unwrap() as int, Team {
                    finances: Finances {
                        capacity: clamp_int(old(self).teams@[old(self).user_team_id.unwrap() as int].finances.capacity + 3_000, 0, 30_000) as u32,
                        stadium_age: 0,
                        stadium_upgrades: (old(self).teams@[old(self).user_team_id.unwrap() as int].finances.stadium_upgrades + 1) as u32,
                        ..old(self).teams@[old(self).user_team_id.unwrap() as int].finances
                    },
                    ..old(self).teams@[old(self).user_team_id.unwrap() as int]
                }),
    {
        let Some(user) = self.user_team_id else { return false };
        if !self.can_upgrade_stadium(user, high_interest, unmet_demand) {
            return false;
        }
        let u = user as usize;
        let mut f = self.teams[u].finances;
        let cap = f.capacity + 3_000;
        f.capacity = if cap < 30_000 { cap } else { 30_000 };
        f.stadium_age = 0;
        f.stadium_upgrades = f.stadium_upgrades + 1;
        self.teams[u].finances = f;
        true
    }
}

} // verus!
