//! Closing out a season and rolling into the next: the recap, contracts,
//! career logs, history, and the new season's reset.

use vstd::prelude::*;
use crate::league::{Awards, League, OwnerMessage, Phase, PlayoffOutcome, SeasonHistory, SeasonRecap, PICK_YEARS};
use crate::league_playoffs::{best_on_roster, outcome_of, seed_in};
use crate::league_season::{current_picks, picks_cover_window};
use crate::player::{overall_of, zero_stats, Career, CareerSeason, Contract, Honor, HonorEntry, Player, SeasonStats};
use crate::rng::rng_from_seed;
use crate::schedule::{generate_schedule, season_from};
use crate::standings::{is_standings_order, standings_order};
use crate::team::{full_name_of, Team};
use crate::types::{Conference, PlayerId, TeamId};

verus! {

broadcast use vstd::std_specs::hash::group_hash_axioms;

/// The player's contract runs out this offseason: he is signed and has one
/// year left.
pub open spec fn expiring(p: Player) -> bool {
    p.team is Some && p.contract.years == 1
}

/// A player after the contract tick: one year off a running deal, and an
/// expiring deal makes him a free agent.
pub open spec fn contract_ticked(p: Player) -> Player {
    if expiring(p) {
        Player { team: None, contract: Contract { salary: 0, years: 0 }, ..p }
    } else if p.team is Some && p.contract.years > 0 {
        Player { contract: Contract { years: (p.contract.years - 1) as u8, ..p.contract }, ..p }
    } else {
        p
    }
}

/// Does the id name a player on team `t` whose contract expires?
pub open spec fn leaves_team(players: Seq<Player>, t: TeamId, x: PlayerId) -> bool {
    (x as int) < players.len() && expiring(players[x as int]) && players[x as int].team == Some(t)
}

/// A roster with the team's expiring players released.
pub open spec fn roster_after_expiry(players: Seq<Player>, t: TeamId, roster: Seq<PlayerId>) -> Seq<PlayerId> {
    roster.filter(|x: PlayerId| !leaves_team(players, t, x))
}

/// The honors a player won this season, in the order they are logged.
pub open spec fn honors_won(p: Player, awards: Awards, fmvp: Option<PlayerId>, champ: Option<TeamId>) -> Seq<Honor> {
    (if awards.mvp == Some(p.id) { seq![Honor::Mvp] } else { Seq::empty() })
    + (if awards.dpoy == Some(p.id) { seq![Honor::Dpoy] } else { Seq::empty() })
    + (if awards.roy == Some(p.id) { seq![Honor::Roy] } else { Seq::empty() })
    + (if fmvp == Some(p.id) { seq![Honor::FinalsMvp] } else { Seq::empty() })
    + (if champ is Some && p.team == champ { seq![Honor::Champion] } else { Seq::empty() })
}

/// The honor log entries for a season.
pub open spec fn honor_entries(season: u32, hs: Seq<Honor>) -> Seq<HonorEntry> {
    hs.map_values(|h: Honor| HonorEntry { season, honor: h })
}

/// The abbreviation of the player's team (empty for a free agent).
pub open spec fn team_abbrev_of(teams: Seq<Team>, p: Player) -> Seq<char> {
    match p.team {
        Some(t) => if (t as int) < teams.len() { teams[t as int].abbrev@ } else { Seq::empty() },
        None => Seq::empty(),
    }
}

/// One career log after this season's entry: a stat line if he played, then
/// any honors.
pub open spec fn career_logged(before_s: Seq<CareerSeason>, before_h: Seq<HonorEntry>, after: Career, season: u32,
    p: Player, st: SeasonStats, abbrev: Seq<char>, hs: Seq<Honor>) -> bool {
    &&& if st.gp > 0 {
        &&& after.seasons@.len() == before_s.len() + 1
        &&& after.seasons@.take(before_s.len() as int) == before_s
        &&& after.seasons@.last().season == season
        &&& after.seasons@.last().team_abbrev@ == abbrev
        &&& after.seasons@.last().age == p.age
        &&& after.seasons@.last().overall == overall_of(p.ratings)
        &&& after.seasons@.last().stats == st
    } else {
        after.seasons@ == before_s
    }
    &&& after.honors@ == before_h + honor_entries(season, hs)
}

/// One player's career log in `new` is his log in `old` with this season
/// recorded, if he played or won an honor, and untouched otherwise.
pub open spec fn career_entry_ok(old: League, new: Map<PlayerId, Career>, pid: PlayerId, awards: Awards,
    fmvp: Option<PlayerId>, champ: Option<TeamId>) -> bool {
    let i = pid as int;
    if i < old.players@.len() && (old.season_stats@[i].gp > 0
        || honors_won(old.players@[i], awards, fmvp, champ).len() > 0) {
        &&& new.contains_key(pid)
        &&& career_logged(
            if old.careers@.contains_key(pid) { old.careers@[pid].seasons@ } else { Seq::empty() },
            if old.careers@.contains_key(pid) { old.careers@[pid].honors@ } else { Seq::empty() },
            new[pid], old.season, old.players@[i], old.season_stats@[i],
            team_abbrev_of(old.teams@, old.players@[i]), honors_won(old.players@[i], awards, fmvp, champ))
    } else {
        &&& new.contains_key(pid) == old.careers@.contains_key(pid)
        &&& new.contains_key(pid) ==> new[pid] == old.careers@[pid]
    }
}

/// The champion and Finals MVP of a league's bracket, if any.
pub open spec fn champion_of(l: League) -> Option<TeamId> {
    match l.playoffs { Some(po) => po.champion, None => None }
}

pub open spec fn finals_mvp_of(l: League) -> Option<PlayerId> {
    match l.playoffs { Some(po) => po.finals_mvp, None => None }
}

/// The career logs of `new` are those of `old` with this season recorded for
/// every player who played or won an honor; nobody else's log changes.
pub open spec fn careers_recorded(old: League, new: Map<PlayerId, Career>, awards: Awards) -> bool {
    forall|pid: PlayerId| #[trigger] career_entry_ok(old, new, pid, awards, finals_mvp_of(old), champion_of(old))
}

proof fn lemma_expiry_subset(players: Seq<Player>, t: TeamId, roster: Seq<PlayerId>, n: int)
    requires
        forall|q: int| 0 <= q < roster.len() ==> (#[trigger] roster[q]) < n,
    ensures
        forall|q: int| 0 <= q < roster_after_expiry(players, t, roster).len()
            ==> (#[trigger] roster_after_expiry(players, t, roster)[q]) < n,
{
    let f = |x: PlayerId| !leaves_team(players, t, x);
    assert forall|q: int| 0 <= q < roster.filter(f).len() implies (#[trigger] roster.filter(f)[q]) < n by {
        let e = roster.filter(f)[q];
        assert(roster.filter(f).contains(e));
        roster.lemma_filter_contains_rev(f, e);
        let k = choose|k: int| 0 <= k < roster.len() && roster[k] == e;
    }
}

/// What starting a new season does: the season number moves on, the draft,
/// free agency and bracket are cleared, every player ages a year, records and
/// stats are reset, the pick window is extended (keeping current picks), a
/// fresh schedule is drawn, and everything else carries over.
pub open spec fn season_started(old: League, new: League) -> bool {
    &&& new.season == old.season + 1
    &&& new.draft is None
    &&& new.free_agency is None
    &&& new.playoffs is None
    &&& new.phase == Phase::RegularSeason
    &&& new.players@.len() == old.players@.len()
    &&& forall|i: int| 0 <= i < old.players@.len() ==> #[trigger] new.players@[i] == (Player {
        age: if old.players@[i].age < 255 { (old.players@[i].age + 1) as u8 } else { 255 },
        ..old.players@[i] })
    &&& forall|t: int| 0 <= t < old.teams@.len() ==> #[trigger] new.teams@[t] == (Team {
        wins: 0, losses: 0, ..old.teams@[t] })
    &&& new.season_stats@.len() == old.players@.len()
    &&& forall|j: int| 0 <= j < old.players@.len() ==> #[trigger] new.season_stats@[j] == zero_stats()
    &&& picks_cover_window(new.pick_assets@, new.season, 32)
    &&& new.pick_assets@.take(current_picks(old.pick_assets@, new.season).len() as int)
        == current_picks(old.pick_assets@, new.season)
    &&& exists|s: Seq<TeamId>| #![trigger season_from(s)] s.len() == 32
        && s.to_multiset() == Seq::new(32, |i: int| i as TeamId).to_multiset()
        && new.schedule@ == season_from(s)
    &&& new.history == old.history
    &&& new.careers == old.careers
    &&& new.awards == old.awards
    &&& new.owner_message == old.owner_message
    &&& new.finals_stats == old.finals_stats
    &&& new.user_team_id == old.user_team_id
    &&& new.seed == old.seed
    &&& new.next_player_id == old.next_player_id
}

proof fn lemma_expiry_keeps(players: Seq<Player>, t: TeamId, r: Seq<PlayerId>)
    requires
        crate::league_trade::distinct_ids(r),
    ensures
        crate::league_trade::distinct_ids(roster_after_expiry(players, t, r)),
        forall|q: int| 0 <= q < roster_after_expiry(players, t, r).len() ==>
            r.contains(#[trigger] roster_after_expiry(players, t, r)[q])
            && !leaves_team(players, t, roster_after_expiry(players, t, r)[q]),
    decreases r.len(),
{
    reveal_with_fuel(Seq::filter, 1);
    if r.len() > 0 {
        let d = r.drop_last();
        assert(crate::league_trade::distinct_ids(d)) by {
            assert forall|i: int, j: int| 0 <= i < j < d.len() implies #[trigger] d[i] != #[trigger] d[j] by {
                assert(r[i] != r[j]);
            }
        }
        lemma_expiry_keeps(players, t, d);
        let w = roster_after_expiry(players, t, d);
        let x = r.last();
        assert(roster_after_expiry(players, t, r) == (if !leaves_team(players, t, x) { w.push(x) } else { w }));
        let v = roster_after_expiry(players, t, r);
        assert forall|q: int| 0 <= q < v.len() implies r.contains(#[trigger] v[q]) && !leaves_team(players, t, v[q]) by {
            if q < w.len() {
                assert(v[q] == w[q]);
                assert(d.contains(w[q]));
                let j = choose|j: int| 0 <= j < d.len() && d[j] == w[q];
                assert(r[j] == w[q]);
            } else {
                assert(r[r.len() - 1] == x);
            }
        }
        if !leaves_team(players, t, x) {
            assert forall|i: int, j: int| 0 <= i < j < v.len() implies #[trigger] v[i] != #[trigger] v[j] by {
                if j < w.len() {
                    assert(w[i] != w[j]);
                } else {
                    assert(d.contains(w[i]));
                    let k = choose|k: int| 0 <= k < d.len() && d[k] == w[i];
                    assert(r[k] != r[r.len() - 1]);
                }
            }
        }
    }
}

impl League {
    /// A team's full name, or the empty string for an unknown team.
    pub fn team_name(&self, id: TeamId) -> (s: String)
        ensures
            s@ == (if (id as int) < self.teams@.len() { full_name_of(self.teams@[id as int]) } else { Seq::empty() }),
    {
        if (id as usize) < self.teams.len() {
            self.teams[id as usize].full_name()
        } else {
            String::new()
        }
    }

    /// Take a year off every signed player's contract and release any that
    /// expire to the free-agent pool (off their team's roster). Called at
    /// season's end.
    pub fn process_contracts(&mut self)
        requires
            old(self).wf(),
        ensures
            final(self).wf(),
            final(self).players@.len() == old(self).players@.len(),
            forall|i: int| 0 <= i < old(self).players@.len() ==> #[trigger] final(self).players@[i] == contract_ticked(old(self).players@[i]),
            final(self).teams@.len() == old(self).teams@.len(),
            forall|t: int| 0 <= t < old(self).teams@.len() ==> (#[trigger] final(self).teams@[t]) == (Team {
                roster: final(self).teams@[t].roster, ..old(self).teams@[t] })
                && final(self).teams@[t].roster@ == roster_after_expiry(old(self).players@, t as TeamId, old(self).teams@[t].roster@),
            *final(self) == (League { players: final(self).players, teams: final(self).teams, ..*old(self) }),
            old(self).rosters_consistent() ==> final(self).rosters_consistent(),
    {
        let ghost old_players = self.players@;
        let ghost old_teams = self.teams@;
        let ghost s0 = *self;
        // Rosters first, reading the contracts as they stand.
        let mut t: usize = 0;
        while t < self.teams.len()
            invariant
                s0.wf(),
                old_teams == s0.teams@,
                old_players == s0.players@,
                *self == (League { teams: self.teams, ..s0 }),
                t <= self.teams@.len(),
                self.teams@.len() == old_teams.len(),
                self.players@ == old_players,
                forall|j: int| 0 <= j < t ==> (#[trigger] self.teams@[j]) == (Team { roster: self.teams@[j].roster, ..old_teams[j] })
                    && self.teams@[j].roster@ == roster_after_expiry(old_players, j as TeamId, old_teams[j].roster@),
                forall|j: int| t <= j < self.teams@.len() ==> #[trigger] self.teams@[j] == old_teams[j],
            decreases self.teams@.len() - t,
        {
            let tid = t as TeamId;
            assert(tid as int == t);
            let mut kept: Vec<PlayerId> = Vec::new();
            let mut k: usize = 0;
            while k < self.teams[t].roster.len()
                invariant
                    t < self.teams@.len(),
                    self.teams@[t as int] == old_teams[t as int],
                    self.players@ == old_players,
                    tid as int == t,
                    k <= self.teams@[t as int].roster@.len(),
                    kept@ == roster_after_expiry(old_players, tid, self.teams@[t as int].roster@.take(k as int)),
                decreases self.teams@[t as int].roster@.len() - k,
            {
                let x = self.teams[t].roster[k];
                let leaves = (x as usize) < self.players.len() && self.players[x as usize].team == Some(tid)
                    && self.players[x as usize].contract.years == 1;
                proof {
                    let r = self.teams@[t as int].roster@;
                    assert(r.take(k as int + 1).drop_last() =~= r.take(k as int));
                    reveal_with_fuel(Seq::filter, 1);
                    assert(leaves == leaves_team(old_players, tid, x));
                }
                if !leaves {
                    kept.push(x);
                }
                k = k + 1;
            }
            proof {
                assert(self.teams@[t as int].roster@.take(k as int) =~= self.teams@[t as int].roster@);
            }
            self.teams[t].roster = kept;
            t = t + 1;
        }
        proof {
            assert forall|j: int, q: int| 0 <= j < self.teams@.len() && 0 <= q < self.teams@[j].roster@.len()
                implies (#[trigger] self.teams@[j].roster@[q]) < old_players.len() by {
                assert forall|q2: int| 0 <= q2 < old_teams[j].roster@.len() implies (#[trigger] old_teams[j].roster@[q2]) < old_players.len() by {}
                lemma_expiry_subset(old_players, j as TeamId, old_teams[j].roster@, old_players.len() as int);
            }
        }
        let ghost s1 = *self;
        // Then the contracts themselves.
        let mut i: usize = 0;
        while i < self.players.len()
            invariant
                *self == (League { players: self.players, ..s1 }),
                s1.players@ == old_players,
                forall|i: int| 0 <= i < old_players.len() ==> (#[trigger] old_players[i]).id == i,
                i <= self.players@.len(),
                self.players@.len() == old_players.len(),
                forall|j: int| 0 <= j < i ==> #[trigger] self.players@[j] == contract_ticked(old_players[j]),
                forall|j: int| i <= j < self.players@.len() ==> #[trigger] self.players@[j] == old_players[j],
            decreases self.players@.len() - i,
        {
            if self.players[i].team.is_some() && self.players[i].contract.years > 0 {
                let y = self.players[i].contract.years - 1;
                if y == 0 {
                    self.players[i].team = None;
                    self.players[i].contract = Contract::free_agent();
                } else {
                    self.players[i].contract.years = y;
                }
            }
            i = i + 1;
        }
        proof {
            if s0.rosters_consistent() {
                assert forall|t: int, k: int| 0 <= t < self.teams@.len() && 0 <= k < self.teams@[t].roster@.len()
                    implies (#[trigger] self.teams@[t].roster@[k]) < self.players@.len()
                        && self.players@[self.teams@[t].roster@[k] as int].team == Some(t as TeamId) by {
                    let r0 = old_teams[t].roster@;
                    assert(crate::league_trade::distinct_ids(r0)) by {
                        assert forall|a: int, b: int| 0 <= a < b < r0.len() implies #[trigger] r0[a] != #[trigger] r0[b] by {
                            assert(s0.teams@[t].roster@[a] != s0.teams@[t].roster@[b]);
                        }
                    }
                    lemma_expiry_keeps(old_players, t as TeamId, r0);
                    let x = self.teams@[t].roster@[k];
                    assert(r0.contains(x));
                    let j = choose|j: int| 0 <= j < r0.len() && r0[j] == x;
                    assert(s0.teams@[t].roster@[j] == x);
                    assert(old_players[x as int].team == Some(t as TeamId));
                }
                assert forall|t: int, k1: int, k2: int| 0 <= t < self.teams@.len() && 0 <= k1 < k2 < self.teams@[t].roster@.len()
                    implies #[trigger] self.teams@[t].roster@[k1] != #[trigger] self.teams@[t].roster@[k2] by {
                    let r0 = old_teams[t].roster@;
                    assert(crate::league_trade::distinct_ids(r0)) by {
                        assert forall|a: int, b: int| 0 <= a < b < r0.len() implies #[trigger] r0[a] != #[trigger] r0[b] by {
                            assert(s0.teams@[t].roster@[a] != s0.teams@[t].roster@[b]);
                        }
                    }
                    lemma_expiry_keeps(old_players, t as TeamId, r0);
                }
            }
        }
    }
}


impl League {
    /// Append this season's stat line and any honors won (with the given
    /// awards) to each player's career log.
    #[verifier::rlimit(80)]
    pub fn record_careers(&mut self, awards: Awards)
        requires
            old(self).wf(),
        ensures
            final(self).wf(),
            careers_recorded(*old(self), final(self).careers@, awards),
            *final(self) == (League { careers: final(self).careers, ..*old(self) }),
    {
        let ghost s0 = *self;
        let season = self.season;
        let (champ, fmvp) = match &self.playoffs {
            Some(po) => (po.champion, po.finals_mvp),
            None => (None, None),
        };
        let mut i: usize = 0;
        while i < self.players.len()
            invariant
                s0.wf(),
                *self == (League { careers: self.careers, ..s0 }),
                i <= self.players@.len(),
                season == s0.season,
                champ == champion_of(s0),
                fmvp == finals_mvp_of(s0),
                forall|pid: PlayerId| (pid as int) < i ==> #[trigger] career_entry_ok(s0, self.careers@, pid, awards, fmvp, champ),
                forall|pid: PlayerId| (pid as int) >= i ==> {
                    &&& (#[trigger] self.careers@.contains_key(pid)) == s0.careers@.contains_key(pid)
                    &&& self.careers@.contains_key(pid) ==> self.careers@[pid] == s0.careers@[pid]
                },
            decreases self.players@.len() - i,
        {
            let pid = i as PlayerId;
            assert(pid as int == i);
            let ghost m0 = self.careers@;
            let st = self.season_stats[i];
            let p = &self.players[i];
            let mut hs: Vec<Honor> = Vec::new();
            if awards.mvp == Some(pid) { hs.push(Honor::Mvp); }
            if awards.dpoy == Some(pid) { hs.push(Honor::Dpoy); }
            if awards.roy == Some(pid) { hs.push(Honor::Roy); }
            if fmvp == Some(pid) { hs.push(Honor::FinalsMvp); }
            if champ.is_some() && p.team == champ { hs.push(Honor::Champion); }
            assert(hs@ =~= honors_won(s0.players@[i as int], awards, fmvp, champ));
            if st.gp > 0 || hs.len() > 0 {
                let ghost had = self.careers@.contains_key(pid);
                let mut c = match self.careers.remove(&pid) {
                    Some(c) => c,
                    None => Career::new(),
                };
                let ghost base_s = c.seasons@;
                let ghost base_h = c.honors@;
                assert(base_s == (if s0.careers@.contains_key(pid) { s0.careers@[pid].seasons@ } else { Seq::<CareerSeason>::empty() }));
                assert(base_h == (if s0.careers@.contains_key(pid) { s0.careers@[pid].honors@ } else { Seq::<HonorEntry>::empty() }));
                if st.gp > 0 {
                    let abbrev = match p.team {
                        Some(t) => if (t as usize) < self.teams.len() { self.teams[t as usize].abbrev.clone() } else { String::new() },
                        None => String::new(),
                    };
                    c.seasons.push(CareerSeason { season, team_abbrev: abbrev, age: p.age, overall: p.overall(), stats: st });
                    assert(c.seasons@.take(base_s.len() as int) =~= base_s);
                }
                let ghost seasons_now = c.seasons@;
                let mut k: usize = 0;
                while k < hs.len()
                    invariant
                        c.seasons@ == seasons_now,
                        k <= hs@.len(),
                        c.honors@ == base_h + honor_entries(season, hs@.take(k as int)),
                    decreases hs@.len() - k,
                {
                    c.honors.push(HonorEntry { season, honor: hs[k] });
                    k = k + 1;
                    assert(c.honors@ =~= base_h + honor_entries(season, hs@.take(k as int)));
                }
                assert(hs@.take(k as int) =~= hs@);
                let ghost cc = c;
                self.careers.insert(pid, c);
                assert(self.careers@.contains_key(pid));
                assert(self.careers@[pid] == cc);
                assert(cc.honors@ == base_h + honor_entries(season, hs@));
                assert(team_abbrev_of(s0.teams@, s0.players@[i as int]) == team_abbrev_of(self.teams@, *p));
                assert(career_logged(base_s, base_h, cc, s0.season, s0.players@[i as int], s0.season_stats@[i as int],
                    team_abbrev_of(s0.teams@, s0.players@[i as int]), hs@));
                assert(career_entry_ok(s0, self.careers@, pid, awards, fmvp, champ));
            } else {
                assert(career_entry_ok(s0, self.careers@, pid, awards, fmvp, champ));
            }
            assert forall|q: PlayerId| (q as int) < i + 1 implies #[trigger] career_entry_ok(s0, self.careers@, q, awards, fmvp, champ) by {
                if q != pid {
                    assert(career_entry_ok(s0, m0, q, awards, fmvp, champ));
                    assert(self.careers@.contains_key(q) == m0.contains_key(q));
                }
            }
            assert forall|q: PlayerId| (q as int) >= i + 1 implies {
                &&& (#[trigger] self.careers@.contains_key(q)) == s0.careers@.contains_key(q)
                &&& self.careers@.contains_key(q) ==> self.careers@[q] == s0.careers@[q]
            } by {
                assert(q != pid);
                assert(m0.contains_key(q) == s0.careers@.contains_key(q));
            }
            i = i + 1;
        }
        assert forall|q: PlayerId| #[trigger] career_entry_ok(s0, self.careers@, q, awards, fmvp, champ) by {
            if (q as int) >= i {
                assert(self.careers@.contains_key(q) == s0.careers@.contains_key(q));
            }
        }
    }

    /// A player's career log, if they have any recorded seasons or honors.
    pub fn career(&self, pid: PlayerId) -> (c: Option<&Career>)
        ensures
            c == (if self.careers@.contains_key(pid) { Some(&self.careers@[pid]) } else { None }),
    {
        self.careers.get(&pid)
    }
}


/// The recap of the user's season, given the standings order of his
/// conference.
pub open spec fn recap_ok(r: SeasonRecap, l: League, uid: TeamId, order: Seq<usize>) -> bool {
    let team = l.teams@[uid as int];
    let seed = seed_in(order, uid);
    &&& r.season == l.season
    &&& r.team_name@ == full_name_of(team)
    &&& r.wins == team.wins
    &&& r.losses == team.losses
    &&& r.conference_seed == (if seed <= 8 { Some(seed as u32) } else { None })
    &&& r.outcome == outcome_of(l.playoffs, uid)
    &&& r.champion_name@ == match champion_of(l) {
        Some(c) => if (c as int) < l.teams@.len() { full_name_of(l.teams@[c as int]) } else { Seq::empty() },
        None => Seq::empty(),
    }
    &&& match best_on_roster(team.roster@, l.players@) {
        Some(b) => r.best_player@ == l.players@[b as int].name@ && r.best_player_ovr == overall_of(l.players@[b as int].ratings),
        None => r.best_player@ == Seq::<char>::empty() && r.best_player_ovr == 0,
    }
}

/// The history entry of a finished season.
pub open spec fn history_entry_ok(h: SeasonHistory, l: League, uid: TeamId, cid: TeamId) -> bool {
    &&& h.season == l.season
    &&& h.champion_id == cid
    &&& h.champion_name@ == (if (cid as int) < l.teams@.len() { full_name_of(l.teams@[cid as int]) } else { Seq::empty() })
    &&& h.user_wins == l.teams@[uid as int].wins
    &&& h.user_losses == l.teams@[uid as int].losses
    &&& h.user_outcome == outcome_of(l.playoffs, uid)
}

/// `new`'s players and rosters are `old`'s after the contract tick.
pub open spec fn contracts_processed(old: League, new: League) -> bool {
    &&& new.players@.len() == old.players@.len()
    &&& forall|i: int| 0 <= i < old.players@.len() ==> #[trigger] new.players@[i] == contract_ticked(old.players@[i])
    &&& new.teams@.len() == old.teams@.len()
    &&& forall|t: int| 0 <= t < old.teams@.len() ==> (#[trigger] new.teams@[t]) == (Team {
        roster: new.teams@[t].roster, ..old.teams@[t] })
        && new.teams@[t].roster@ == roster_after_expiry(old.players@, t as TeamId, old.teams@[t].roster@)
}

impl League {
    /// Build the end-of-season recap for the user's team. Call after playoffs.
    pub fn season_recap(&self) -> (r: Option<SeasonRecap>)
        requires
            self.wf(),
        ensures
            match self.user_team_id {
                Some(uid) if (uid as int) < self.teams@.len() => r is Some && exists|order: Seq<usize>|
                    is_standings_order(self.teams@, self.teams@[uid as int].conference, order)
                    && #[trigger] recap_ok(r.unwrap(), *self, uid, order),
                _ => r is None,
            },
    {
        let uid = match self.user_team_id {
            Some(u) => u,
            None => return None,
        };
        if (uid as usize) >= self.teams.len() {
            return None;
        }
        let team = &self.teams[uid as usize];
        let order = self.conference_order(team.conference);
        let seed = Self::seed_from(&order, uid);
        let conference_seed = if seed <= 8 { Some(seed) } else { None };
        // Best player on the roster.
        let mut best: Option<PlayerId> = None;
        let mut best_ovr: u8 = 0;
        let mut i: usize = 0;
        while i < team.roster.len()
            invariant
                i <= team.roster@.len(),
                best == best_on_roster(team.roster@.take(i as int), self.players@),
                best matches Some(b) ==> (b as int) < self.players@.len() && best_ovr == overall_of(self.players@[b as int].ratings),
            decreases team.roster@.len() - i,
        {
            proof {
                assert(team.roster@.take(i as int + 1).drop_last() =~= team.roster@.take(i as int));
            }
            let pid = team.roster[i];
            if (pid as usize) < self.players.len() {
                let o = self.players[pid as usize].overall();
                match best {
                    None => {
                        best = Some(pid);
                        best_ovr = o;
                    }
                    Some(_) => {
                        if o >= best_ovr {
                            best = Some(pid);
                            best_ovr = o;
                        }
                    }
                }
            }
            i = i + 1;
        }
        assert(team.roster@.take(i as int) =~= team.roster@);
        let (best_player, best_player_ovr) = match best {
            Some(b) => (self.players[b as usize].name.clone(), best_ovr),
            None => (String::new(), 0),
        };
        let champion_name = match &self.playoffs {
            Some(po) => match po.champion {
                Some(c) => self.team_name(c),
                None => String::new(),
            },
            None => String::new(),
        };
        let r = SeasonRecap {
            season: self.season,
            team_name: team.full_name(),
            wins: team.wins,
            losses: team.losses,
            conference_seed,
            outcome: self.outcome_for(uid),
            champion_name,
            best_player,
            best_player_ovr,
        };
        assert(recap_ok(r, *self, uid, order@));
        assert(is_standings_order(self.teams@, self.teams@[uid as int].conference, order@));
        assert(Some(r).unwrap() == r);
        Some(r)
    }

    /// Record the finished season and move to the offseason: store the
    /// season's awards and the owner's note, add the season to league history
    /// (when the user has a team and a champion was crowned), log every
    /// player's career, and tick down contracts (expiring players hit the
    /// free-agent pool).
    pub fn close_season(&mut self, awards: Awards, owner: OwnerMessage)
        requires
            old(self).wf(),
        ensures
            final(self).wf(),
            final(self).awards == Some(awards),
            final(self).owner_message == Some(owner),
            match (old(self).user_team_id, champion_of(*old(self))) {
                (Some(uid), Some(cid)) if (uid as int) < old(self).teams@.len() =>
                    final(self).history@.len() == old(self).history@.len() + 1
                    && final(self).history@.take(old(self).history@.len() as int) == old(self).history@
                    && history_entry_ok(final(self).history@.last(), *old(self), uid, cid),
                _ => final(self).history@ == old(self).history@,
            },
            careers_recorded(*old(self), final(self).careers@, awards),
            contracts_processed(*old(self), *final(self)),
            final(self).phase == Phase::Offseason,
            *final(self) == (League { awards: final(self).awards, owner_message: final(self).owner_message,
                history: final(self).history, careers: final(self).careers, players: final(self).players,
                teams: final(self).teams, phase: Phase::Offseason, ..*old(self) }),
            old(self).rosters_consistent() ==> final(self).rosters_consistent(),
    {
        let ghost s0 = *self;
        self.awards = Some(awards);
        self.owner_message = Some(owner);
        let champion_id = match &self.playoffs {
            Some(po) => po.champion,
            None => None,
        };
        if let (Some(uid), Some(cid)) = (self.user_team_id, champion_id) {
            if (uid as usize) < self.teams.len() {
                let entry = SeasonHistory {
                    season: self.season,
                    champion_id: cid,
                    champion_name: self.team_name(cid),
                    user_wins: self.teams[uid as usize].wins,
                    user_losses: self.teams[uid as usize].losses,
                    user_outcome: self.outcome_for(uid),
                };
                assert(history_entry_ok(entry, s0, uid, cid));
                self.history.push(entry);
                assert(self.history@.take(s0.history@.len() as int) =~= s0.history@);
            }
        }
        let ghost s1 = *self;
        self.record_careers(awards);
        assert forall|q: PlayerId| #[trigger] career_entry_ok(s0, self.careers@, q, awards, finals_mvp_of(s0), champion_of(s0)) by {
            assert(career_entry_ok(s1, self.careers@, q, awards, finals_mvp_of(s1), champion_of(s1)));
        }
        let ghost s2 = *self;
        assert(s0.rosters_consistent() ==> s2.rosters_consistent());
        self.process_contracts();
        self.phase = Phase::Offseason;
    }

    /// Age every arena by a season (saturating at `u32::MAX`); nothing else
    /// changes. Done when the season's books close, before the owner's note.
    pub fn age_arenas(&mut self)
        requires
            old(self).wf(),
        ensures
            final(self).wf(),
            final(self).teams@.len() == old(self).teams@.len(),
            forall|t: int| 0 <= t < old(self).teams@.len() ==> (#[trigger] final(self).teams@[t]) == (Team {
                finances: crate::team::Finances {
                    stadium_age: if old(self).teams@[t].finances.stadium_age < u32::MAX {
                        (old(self).teams@[t].finances.stadium_age + 1) as u32
                    } else {
                        u32::MAX
                    },
                    ..old(self).teams@[t].finances
                },
                ..old(self).teams@[t]
            }),
            *final(self) == (League { teams: final(self).teams, ..*old(self) }),
            old(self).rosters_consistent() ==> final(self).rosters_consistent(),
    {
        let ghost t0 = self.teams@;
        let mut i: usize = 0;
        while i < self.teams.len()
            invariant
                self.wf(),
                i <= self.teams@.len(),
                self.teams@.len() == t0.len(),
                *self == (League { teams: self.teams, ..*old(self) }),
                forall|t: int| 0 <= t < i ==> (#[trigger] self.teams@[t]) == (Team {
                    finances: crate::team::Finances {
                        stadium_age: if t0[t].finances.stadium_age < u32::MAX {
                            (t0[t].finances.stadium_age + 1) as u32
                        } else {
                            u32::MAX
                        },
                        ..t0[t].finances
                    },
                    ..t0[t]
                }),
                forall|t: int| i <= t < t0.len() ==> #[trigger] self.teams@[t] == t0[t],
            decreases t0.len() - i,
        {
            let mut f = self.teams[i].finances;
            f.stadium_age = f.stadium_age.saturating_add(1);
            self.teams[i].finances = f;
            i = i + 1;
        }
        proof {
            assert forall|t: int, k: int| 0 <= t < self.teams@.len() && 0 <= k < self.teams@[t].roster@.len()
                implies (#[trigger] self.teams@[t].roster@[k]) == t0[t].roster@[k] by {}
        }
    }

    /// Roll into the next season: clear the draft and free agency, age every
    /// player a year, reset records and stats, clear the bracket, extend the
    /// tradeable-pick window, draw a new schedule, and tip off. Rosters and
    /// customizations are kept. (Player development, which runs on the money
    /// model's budgets, is applied by the caller afterwards.)
    pub fn start_new_season(&mut self)
        requires
            old(self).wf(),
            old(self).season + 1 + PICK_YEARS <= u32::MAX,
            old(self).next_pick_id + 512 <= u32::MAX,
        ensures
            final(self).wf(),
            season_started(*old(self), *final(self)),
            old(self).rosters_consistent() ==> final(self).rosters_consistent(),
    {
        self.season = self.season + 1;
        self.draft = None;
        self.free_agency = None;
        let ghost players0 = self.players@;
        let ghost sa = *self;
        let mut i: usize = 0;
        while i < self.players.len()
            invariant
                *self == (League { players: self.players, ..sa }),
                i <= self.players@.len(),
                self.players@.len() == players0.len(),
                forall|j: int| 0 <= j < i ==> #[trigger] self.players@[j] == (Player {
                    age: if players0[j].age < 255 { (players0[j].age + 1) as u8 } else { 255 }, ..players0[j] }),
                forall|j: int| i <= j < self.players@.len() ==> #[trigger] self.players@[j] == players0[j],
            decreases self.players@.len() - i,
        {
            let a = self.players[i].age;
            self.players[i].age = if a < 255 { a + 1 } else { 255 };
            i = i + 1;
        }
        let ghost teams0 = self.teams@;
        let ghost sb = *self;
        let mut t: usize = 0;
        while t < self.teams.len()
            invariant
                *self == (League { teams: self.teams, ..sb }),
                t <= self.teams@.len(),
                self.teams@.len() == teams0.len(),
                forall|j: int| 0 <= j < t ==> #[trigger] self.teams@[j] == (Team { wins: 0, losses: 0, ..teams0[j] }),
                forall|j: int| t <= j < self.teams@.len() ==> #[trigger] self.teams@[j] == teams0[j],
            decreases self.teams@.len() - t,
        {
            self.teams[t].wins = 0;
            self.teams[t].losses = 0;
            t = t + 1;
        }
        let n = self.players.len();
        let mut stats: Vec<SeasonStats> = Vec::new();
        let mut q: usize = 0;
        while q < n
            invariant
                q <= n,
                stats@.len() == q,
                forall|j: int| 0 <= j < q ==> #[trigger] stats@[j] == zero_stats(),
            decreases n - q,
        {
            stats.push(SeasonStats::new());
            q = q + 1;
        }
        self.season_stats = stats;
        self.playoffs = None;
        self.ensure_pick_assets();
        let mut ids: Vec<TeamId> = Vec::new();
        let mut k: u32 = 0;
        while k < 32
            invariant
                k <= 32,
                ids@ == Seq::new(k as nat, |i: int| i as TeamId),
            decreases 32 - k,
        {
            ids.push(k);
            k = k + 1;
            assert(ids@ =~= Seq::new(k as nat, |i: int| i as TeamId));
        }
        let mut rng = rng_from_seed(self.seed ^ 0x5C4ED ^ (self.season as u64));
        self.schedule = generate_schedule(ids.as_slice(), &mut rng);
        self.phase = Phase::RegularSeason;
    }
}

} // verus!
