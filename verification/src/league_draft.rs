//! The annual draft: building the pick board, making picks, and the CPU's
//! best-available choices.

use vstd::prelude::*;
use rand::rngs::StdRng;
use crate::draft::{Draft, DraftPick};
use crate::league::{rookie_scale, rookie_scale_of, League, OwnedPick, Phase};
use crate::order::{is_key_order, key_order};
use crate::player::{overall_of, zero_stats, Contract, Player, SeasonStats};
use crate::rng::{rng_below, rng_from_seed};
use crate::team::Team;
use crate::types::{PlayerId, TeamId};

verus! {

/// The first pick record (by position) for a draft slot, if any.
pub open spec fn slot_record(a: Seq<OwnedPick>, season: u32, round: u8, team: TeamId) -> Option<TeamId>
    decreases a.len(),
{
    if a.len() == 0 {
        None
    } else {
        let f = slot_record(a.drop_last(), season, round, team);
        if f is Some {
            f
        } else if a.last().season == season && a.last().round == round && a.last().original == team {
            Some(a.last().owner)
        } else {
            None
        }
    }
}

/// Who holds a draft slot this year: the owner of its pick record (traded
/// picks convey), or the team itself.
pub open spec fn slot_owner(a: Seq<OwnedPick>, season: u32, round: u8, team: TeamId) -> TeamId {
    match slot_record(a, season, round, team) {
        Some(o) => o,
        None => team,
    }
}

/// The prospects that name a real player, in board order.
pub open spec fn available(prospects: Seq<PlayerId>, n: int) -> Seq<PlayerId> {
    prospects.filter(|id: PlayerId| (id as int) < n)
}

/// Draft keys: a better overall sorts first.
pub open spec fn draft_keys(pool: Seq<PlayerId>, players: Seq<Player>) -> Seq<u64> {
    pool.map_values(|id: PlayerId| (255 - overall_of(players[id as int].ratings)) as u64)
}

/// The board slot for pick `i` of a round.
pub open spec fn board_pick(a: Seq<OwnedPick>, season: u32, round: u8, order: Seq<TeamId>, i: int) -> DraftPick {
    DraftPick {
        round: round,
        overall: ((round - 1) * 32 + i + 1) as u8,
        team_id: slot_owner(a, season, round, order[i]),
        player_id: None,
    }
}

/// A pick record for a slot: this season's pick of the round whose original
/// team is `team`.
pub open spec fn conveys(pk: OwnedPick, season: u32, round: u8, team: TeamId) -> bool {
    pk.season == season && pk.round == round && pk.original == team
}

proof fn lemma_slot_record_first(a: Seq<OwnedPick>, season: u32, round: u8, team: TeamId, k: int)
    requires
        0 <= k <= a.len(),
        k < a.len() ==> conveys(a[k], season, round, team),
        forall|j: int| 0 <= j < k ==> !conveys(#[trigger] a[j], season, round, team),
    ensures
        slot_record(a, season, round, team) == (if k < a.len() { Some(a[k].owner) } else { None::<TeamId> }),
    decreases a.len(),
{
    if a.len() > 0 {
        if k == a.len() - 1 {
            lemma_slot_record_first(a.drop_last(), season, round, team, k);
        } else if k < a.len() - 1 {
            lemma_slot_record_first(a.drop_last(), season, round, team, k);
            assert(a.drop_last()[k] == a[k]);
        } else {
            lemma_slot_record_first(a.drop_last(), season, round, team, k - 1);
            assert(!conveys(a[a.len() - 1], season, round, team));
        }
    }
}

/// Traded picks convey: the `i`-th slot of a round on the draft board goes
/// to the owner of the first pick record for that season, round and the
/// slot's original team; with no such record, to the slot's own team.
pub proof fn lemma_traded_pick_conveys(a: Seq<OwnedPick>, season: u32, round: u8, order: Seq<TeamId>, i: int, k: int)
    requires
        0 <= i < order.len(),
        0 <= k <= a.len(),
        k < a.len() ==> conveys(a[k], season, round, order[i]),
        forall|j: int| 0 <= j < k ==> !conveys(#[trigger] a[j], season, round, order[i]),
    ensures
        board_pick(a, season, round, order, i).team_id == (if k < a.len() { a[k].owner } else { order[i] }),
{
    lemma_slot_record_first(a, season, round, order[i], k);
}

impl League {
    /// Who holds this season's pick of the given round in `team`'s slot.
    fn slot_holder(&self, round: u8, team: TeamId) -> (t: TeamId)
        ensures
            t == slot_owner(self.pick_assets@, self.season, round, team),
    {
        let mut owner: Option<TeamId> = None;
        let mut a: usize = 0;
        while a < self.pick_assets.len()
            invariant
                a <= self.pick_assets@.len(),
                owner == slot_record(self.pick_assets@.take(a as int), self.season, round, team),
            decreases self.pick_assets@.len() - a,
        {
            proof {
                assert(self.pick_assets@.take(a as int + 1).drop_last() =~= self.pick_assets@.take(a as int));
            }
            let pk = self.pick_assets[a];
            if owner.is_none() && pk.season == self.season && pk.round == round && pk.original == team {
                owner = Some(pk.owner);
            }
            a = a + 1;
        }
        assert(self.pick_assets@.take(a as int) =~= self.pick_assets@);
        match owner {
            Some(o) => o,
            None => team,
        }
    }

    /// One round of the pick board, in draft order.
    fn board_round(&self, round: u8, order: &Vec<TeamId>) -> (r: Vec<DraftPick>)
        requires
            round == 1 || round == 2,
            order@.len() <= 32,
        ensures
            r@.len() == order@.len(),
            forall|i: int| 0 <= i < order@.len()
                ==> #[trigger] r@[i] == board_pick(self.pick_assets@, self.season, round, order@, i),
    {
        let base: usize = if round == 1 { 0 } else { 32 };
        let mut r: Vec<DraftPick> = Vec::new();
        let mut i: usize = 0;
        while i < order.len()
            invariant
                round == 1 || round == 2,
                order@.len() <= 32,
                base == (round - 1) * 32,
                i <= order@.len(),
                r@.len() == i,
                forall|j: int| 0 <= j < i
                    ==> #[trigger] r@[j] == board_pick(self.pick_assets@, self.season, round, order@, j),
            decreases order@.len() - i,
        {
            let holder = self.slot_holder(round, order[i]);
            r.push(DraftPick { round, overall: (base + i + 1) as u8, team_id: holder, player_id: None });
            i = i + 1;
        }
        r
    }

    /// Open the draft: add the prospect class to the player pool (with fresh
    /// stats lines), lay out both rounds in the given order with each slot
    /// going to whoever holds its pick this year, spend this draft's pick
    /// records, and move into the draft phase with 25 scouting points.
    pub fn open_draft(&mut self, prospects: Vec<Player>, order: &Vec<TeamId>)
        requires
            old(self).wf(),
            order@.len() <= 32,
            old(self).players@.len() + prospects@.len() < u32::MAX,
            forall|k: int| 0 <= k < prospects@.len() ==> (#[trigger] prospects@[k]).id == old(self).players@.len() + k,
        ensures
            final(self).wf(),
            final(self).players@ == old(self).players@ + prospects@,
            final(self).season_stats@ == old(self).season_stats@
                + Seq::new(prospects@.len(), |j: int| zero_stats()),
            final(self).pick_assets@ == old(self).pick_assets@.filter(|pk: OwnedPick| pk.season != old(self).season),
            final(self).draft is Some,
            ({
                let d = final(self).draft.unwrap();
                let n = order@.len() as int;
                &&& d.picks@.len() == 2 * n
                &&& forall|i: int| 0 <= i < n ==> #[trigger] d.picks@[i]
                    == board_pick(old(self).pick_assets@, old(self).season, 1, order@, i)
                &&& forall|i: int| 0 <= i < n ==> #[trigger] d.picks@[n + i]
                    == board_pick(old(self).pick_assets@, old(self).season, 2, order@, i)
                &&& d.prospects@ == prospects@.map_values(|p: Player| p.id)
                &&& d.on_clock == 0
                &&& d.scout_points == 25
            }),
            *final(self) == (League { players: final(self).players, season_stats: final(self).season_stats,
                next_player_id: final(self).next_player_id, pick_assets: final(self).pick_assets,
                draft: final(self).draft, phase: Phase::Draft, ..*old(self) }),
            old(self).rosters_consistent() && (forall|k: int| 0 <= k < prospects@.len() ==> (#[trigger] prospects@[k]).team is None)
                ==> final(self).rosters_consistent() && board_free(*final(self)),
            (forall|k: int| 0 <= k < old(self).pick_assets@.len() ==> (#[trigger] old(self).pick_assets@[k]).season >= old(self).season)
                ==> forall|k: int| 0 <= k < final(self).pick_assets@.len() ==> (#[trigger] final(self).pick_assets@[k]).season > old(self).season,
    {
        let ghost s0 = *self;
        let mut picks = self.board_round(1, order);
        let mut second = self.board_round(2, order);
        let ghost r1 = picks@;
        let ghost r2 = second@;
        picks.append(&mut second);
        assert(picks@ == r1 + r2);
        let ghost pros = prospects@;
        let mut ids: Vec<PlayerId> = Vec::new();
        let mut k: usize = 0;
        while k < prospects.len()
            invariant
                k <= prospects@.len(),
                prospects@ == pros,
                ids@ == pros.take(k as int).map_values(|p: Player| p.id),
            decreases prospects@.len() - k,
        {
            ids.push(prospects[k].id);
            k = k + 1;
            assert(ids@ =~= pros.take(k as int).map_values(|p: Player| p.id));
        }
        assert(pros.take(k as int) =~= pros);
        let count = prospects.len();
        let mut prospects = prospects;
        self.players.append(&mut prospects);
        self.next_player_id = self.players.len() as PlayerId;
        let ghost mid = *self;
        let mut q: usize = 0;
        while q < count
            invariant
                count == pros.len(),
                q <= count,
                *self == (League { season_stats: self.season_stats, ..mid }),
                self.season_stats@ == s0.season_stats@ + Seq::new(q as nat, |j: int| zero_stats()),
            decreases count - q,
        {
            self.season_stats.push(SeasonStats::new());
            q = q + 1;
            assert(self.season_stats@ =~= s0.season_stats@ + Seq::new(q as nat, |j: int| zero_stats()));
        }
        // This draft's pick records are now spent.
        let season = self.season;
        let mut kept: Vec<OwnedPick> = Vec::new();
        let mut a: usize = 0;
        while a < self.pick_assets.len()
            invariant
                a <= self.pick_assets@.len(),
                kept@ == self.pick_assets@.take(a as int).filter(|pk: OwnedPick| pk.season != season),
            decreases self.pick_assets@.len() - a,
        {
            proof {
                assert(self.pick_assets@.take(a as int + 1).drop_last() =~= self.pick_assets@.take(a as int));
                reveal_with_fuel(Seq::filter, 1);
            }
            let pk = self.pick_assets[a];
            if pk.season != season {
                kept.push(pk);
            }
            a = a + 1;
        }
        assert(self.pick_assets@.take(a as int) =~= self.pick_assets@);
        self.pick_assets = kept;
        self.draft = Some(Draft { picks, prospects: ids, on_clock: 0, scout_points: 25 });
        self.phase = Phase::Draft;
        proof {
            let n = order@.len() as int;
            assert forall|i: int| 0 <= i < n implies #[trigger] picks@[n + i]
                == board_pick(s0.pick_assets@, s0.season, 2, order@, i) by {
                assert(picks@[n + i] == r2[i]);
            }
            assert forall|i: int| 0 <= i < self.players@.len() implies (#[trigger] self.players@[i]).id == i by {
                if i >= s0.players@.len() {
                    assert(self.players@[i] == pros[i - s0.players@.len()]);
                }
            }
            assert forall|t: int, k: int| 0 <= t < self.teams@.len() && 0 <= k < self.teams@[t].roster@.len()
                implies (#[trigger] self.teams@[t].roster@[k]) < self.players@.len() by {
                assert(s0.teams@[t].roster@[k] < s0.players@.len());
            }
            if s0.rosters_consistent() && (forall|k: int| 0 <= k < pros.len() ==> (#[trigger] pros[k]).team is None) {
                assert forall|t: int, k: int| 0 <= t < self.teams@.len() && 0 <= k < self.teams@[t].roster@.len()
                    implies (#[trigger] self.teams@[t].roster@[k]) < self.players@.len()
                        && self.players@[self.teams@[t].roster@[k] as int].team == Some(t as TeamId) by {
                    assert(s0.teams@[t].roster@[k] < s0.players@.len());
                    assert(self.players@[s0.teams@[t].roster@[k] as int] == s0.players@[s0.teams@[t].roster@[k] as int]);
                }
                let d = self.draft.unwrap();
                assert forall|k: int| 0 <= k < d.prospects@.len() && (d.prospects@[k] as int) < self.players@.len()
                    implies (#[trigger] self.players@[d.prospects@[k] as int]).team is None by {
                    assert(d.prospects@[k] == pros[k].id);
                    assert(self.players@[s0.players@.len() + k] == pros[k]);
                }
            }
            let kept_all = self.pick_assets@;
            let f = |pk: OwnedPick| pk.season != s0.season;
            if forall|k: int| 0 <= k < s0.pick_assets@.len() ==> (#[trigger] s0.pick_assets@[k]).season >= s0.season {
                assert forall|k: int| 0 <= k < kept_all.len() implies (#[trigger] kept_all[k]).season > s0.season by {
                    assert(s0.pick_assets@.filter(f).contains(kept_all[k]));
                    s0.pick_assets@.lemma_filter_contains_rev(f, kept_all[k]);
                }
            }
        }
    }
}

/// A player once drafted with a pick: on the picking team, drafted this
/// season, on a three-year rookie-scale deal for the pick's number.
pub open spec fn drafted(p: Player, team: TeamId, season: u32, overall: u8) -> Player {
    Player {
        team: Some(team),
        draft_season: Some(season),
        contract: Contract { salary: rookie_scale_of(overall as int) as u32, years: 3 },
        ..p
    }
}

/// The player ids of a run of made picks.
pub open spec fn pick_ids(made: Seq<DraftPick>) -> Seq<PlayerId> {
    made.map_values(|pk: DraftPick| pk.player_id.unwrap())
}

/// The player table after a run of picks, applied in order.
pub open spec fn players_after_picks(players: Seq<Player>, made: Seq<DraftPick>, season: u32) -> Seq<Player>
    decreases made.len(),
{
    if made.len() == 0 {
        players
    } else {
        let before = players_after_picks(players, made.drop_last(), season);
        let pk = made.last();
        let x = pk.player_id.unwrap() as int;
        if x < before.len() {
            before.update(x, drafted(before[x], pk.team_id, season, pk.overall))
        } else {
            before
        }
    }
}

/// The players a team took in a run of picks, in pick order.
pub open spec fn drafted_by(made: Seq<DraftPick>, t: TeamId) -> Seq<PlayerId>
    decreases made.len(),
{
    if made.len() == 0 {
        Seq::empty()
    } else {
        drafted_by(made.drop_last(), t) + if made.last().team_id == t {
            seq![made.last().player_id.unwrap()]
        } else {
            Seq::empty()
        }
    }
}

/// A list of ids with every occurrence of `y` removed.
pub open spec fn without(s: Seq<PlayerId>, y: PlayerId) -> Seq<PlayerId> {
    s.filter(|x: PlayerId| x != y)
}

pub proof fn lemma_without_contains(s: Seq<PlayerId>, y: PlayerId, e: PlayerId)
    requires
        without(s, y).contains(e),
    ensures
        s.contains(e),
        e != y,
    decreases s.len(),
{
    reveal_with_fuel(Seq::filter, 1);
    if s.len() > 0 {
        let w = without(s.drop_last(), y);
        assert(without(s, y) == (if s.last() != y { w.push(s.last()) } else { w }));
        let i = choose|i: int| 0 <= i < without(s, y).len() && without(s, y)[i] == e;
        if i < w.len() {
            assert(w[i] == e);
            lemma_without_contains(s.drop_last(), y, e);
            let j = choose|j: int| 0 <= j < s.drop_last().len() && s.drop_last()[j] == e;
            assert(s[j] == e);
        } else {
            assert(s[s.len() - 1] == e);
        }
    }
}

/// The board after the given players were taken, in order.
pub open spec fn board_after(prospects: Seq<PlayerId>, taken: Seq<PlayerId>) -> Seq<PlayerId>
    decreases taken.len(),
{
    if taken.len() == 0 {
        prospects
    } else {
        without(board_after(prospects, taken.drop_last()), taken.last())
    }
}

/// The picks made between two states of a draft.
pub open spec fn picks_made(d0: Draft, d1: Draft) -> Seq<DraftPick> {
    d1.picks@.subrange(d0.on_clock as int, d1.on_clock as int)
}

/// `new` is `old` with the draft moved on from `old`'s clock to `new`'s: each
/// slot in between now names its player, each of those players is drafted by
/// the slot's team (and joins its roster), and leaves the board; nothing else
/// changes.
pub open spec fn draft_advanced(old: League, new: League) -> bool {
    &&& old.draft is Some
    &&& new.draft is Some
    &&& {
        let d0 = old.draft.unwrap();
        let d1 = new.draft.unwrap();
        let made = picks_made(d0, d1);
        &&& d0.on_clock <= d1.on_clock <= d1.picks@.len()
        &&& d1.picks@.len() == d0.picks@.len()
        &&& d1.scout_points == d0.scout_points
        &&& forall|i: int| 0 <= i < d0.picks@.len() && !(d0.on_clock <= i < d1.on_clock)
            ==> #[trigger] d1.picks@[i] == d0.picks@[i]
        &&& forall|i: int| d0.on_clock <= i < d1.on_clock ==> (#[trigger] d1.picks@[i]).player_id is Some
            && d1.picks@[i] == (DraftPick { player_id: d1.picks@[i].player_id, ..d0.picks@[i] })
        &&& d1.prospects@ == board_after(d0.prospects@, pick_ids(made))
        &&& new.players@ == players_after_picks(old.players@, made, old.season)
        &&& new.teams@.len() == old.teams@.len()
        &&& forall|t: int| 0 <= t < old.teams@.len() ==> (#[trigger] new.teams@[t]) == (Team {
            roster: new.teams@[t].roster, ..old.teams@[t] })
            && new.teams@[t].roster@ == old.teams@[t].roster@ + drafted_by(made, t as TeamId)
    }
    &&& new == (League { players: new.players, teams: new.teams, draft: new.draft, ..old })
}

/// A draft is open and has picks left to make.
pub open spec fn draft_running(l: League) -> bool {
    l.draft is Some && l.draft.unwrap().on_clock < l.draft.unwrap().picks@.len()
}

/// Every real player on the board is unsigned.
pub open spec fn board_free(l: League) -> bool {
    l.draft is Some ==> forall|k: int| 0 <= k < l.draft.unwrap().prospects@.len()
        && (l.draft.unwrap().prospects@[k] as int) < l.players@.len()
        ==> (#[trigger] l.players@[l.draft.unwrap().prospects@[k] as int]).team is None
}

/// Every pick in the run took a player who was still on the board.
pub open spec fn picks_from_board(d0: Draft, d1: Draft) -> bool {
    let ids = pick_ids(picks_made(d0, d1));
    forall|i: int| 0 <= i < ids.len() ==> #[trigger] board_after(d0.prospects@, ids.take(i)).contains(ids[i])
}

proof fn lemma_advance_refl(a: League)
    requires
        a.draft is Some,
        a.draft.unwrap().on_clock <= a.draft.unwrap().picks@.len(),
    ensures
        draft_advanced(a, a),
        picks_from_board(a.draft.unwrap(), a.draft.unwrap()),
{
    let d = a.draft.unwrap();
    let made = picks_made(d, d);
    assert(made =~= Seq::<DraftPick>::empty());
    assert(pick_ids(made) =~= Seq::<PlayerId>::empty());
    assert forall|t: int| 0 <= t < a.teams@.len() implies (#[trigger] a.teams@[t]) == (Team {
        roster: a.teams@[t].roster, ..a.teams@[t] })
        && a.teams@[t].roster@ == a.teams@[t].roster@ + drafted_by(made, t as TeamId) by {
        assert(a.teams@[t].roster@ =~= a.teams@[t].roster@ + drafted_by(made, t as TeamId));
    }
}

proof fn lemma_advance_step(a: League, b: League, c: League)
    requires
        draft_advanced(a, b),
        draft_advanced(b, c),
        c.draft.unwrap().on_clock == b.draft.unwrap().on_clock + 1,
    ensures
        draft_advanced(a, c),
        picks_from_board(a.draft.unwrap(), b.draft.unwrap())
            && b.draft.unwrap().prospects@.contains(c.draft.unwrap().picks@[b.draft.unwrap().on_clock as int].player_id.unwrap())
            ==> picks_from_board(a.draft.unwrap(), c.draft.unwrap()),
{
    let da = a.draft.unwrap();
    let db = b.draft.unwrap();
    let dc = c.draft.unwrap();
    let ab = picks_made(da, db);
    let bc = picks_made(db, dc);
    let ac = picks_made(da, dc);
    let pk = dc.picks@[db.on_clock as int];
    assert(bc =~= seq![pk]);
    assert(ac =~= ab.push(pk)) by {
        assert forall|i: int| 0 <= i < ab.len() implies ac[i] == ab[i] by {
            assert(dc.picks@[da.on_clock + i] == db.picks@[da.on_clock + i]);
        }
    }
    assert(ac.drop_last() =~= ab);
    assert(bc.drop_last() =~= Seq::<DraftPick>::empty());
    let x = pk.player_id.unwrap();
    assert(pick_ids(ac) =~= pick_ids(ab).push(x));
    assert(pick_ids(ac).drop_last() =~= pick_ids(ab));
    assert(pick_ids(bc) =~= seq![x]);
    assert(pick_ids(bc).drop_last() =~= Seq::<PlayerId>::empty());
    assert(board_after(db.prospects@, pick_ids(bc).drop_last()) == db.prospects@);
    assert(dc.prospects@ == board_after(da.prospects@, pick_ids(ac)));
    assert(players_after_picks(b.players@, bc.drop_last(), b.season) == b.players@);
    assert(c.players@ == players_after_picks(a.players@, ac, a.season));
    assert forall|t: int| 0 <= t < a.teams@.len() implies (#[trigger] c.teams@[t]) == (Team {
        roster: c.teams@[t].roster, ..a.teams@[t] })
        && c.teams@[t].roster@ == a.teams@[t].roster@ + drafted_by(ac, t as TeamId) by {
        assert(b.teams@[t] == (Team { roster: b.teams@[t].roster, ..a.teams@[t] }));
        assert(c.teams@[t] == (Team { roster: c.teams@[t].roster, ..b.teams@[t] }));
        assert(drafted_by(bc.drop_last(), t as TeamId) =~= Seq::<PlayerId>::empty());
        assert(c.teams@[t].roster@ =~= a.teams@[t].roster@ + drafted_by(ac, t as TeamId));
    }
    assert forall|i: int| 0 <= i < da.picks@.len() && !(da.on_clock <= i < dc.on_clock)
        implies #[trigger] dc.picks@[i] == da.picks@[i] by {
        assert(dc.picks@[i] == db.picks@[i]);
    }
    assert forall|i: int| da.on_clock <= i < dc.on_clock implies (#[trigger] dc.picks@[i]).player_id is Some
        && dc.picks@[i] == (DraftPick { player_id: dc.picks@[i].player_id, ..da.picks@[i] }) by {
        if i < db.on_clock {
            assert(dc.picks@[i] == db.picks@[i]);
        } else {
            assert(db.picks@[i] == da.picks@[i]);
        }
    }
    if picks_from_board(da, db) && db.prospects@.contains(x) {
        let ids = pick_ids(ac);
        assert forall|i: int| 0 <= i < ids.len() implies #[trigger] board_after(da.prospects@, ids.take(i)).contains(ids[i]) by {
            if i < ab.len() {
                assert(ids.take(i) =~= pick_ids(ab).take(i));
                assert(ids[i] == pick_ids(ab)[i]);
            } else {
                assert(ids.take(i) =~= pick_ids(ab));
            }
        }
    }
}

impl League {
    /// Make the pick on the clock for `player_id` and advance the clock. The
    /// player joins the picking team on a rookie-scale deal; nothing happens
    /// when no draft is running or it is over.
    fn apply_pick(&mut self, player_id: PlayerId)
        requires
            old(self).wf(),
            (player_id as int) < old(self).players@.len(),
        ensures
            final(self).wf(),
            draft_running(*old(self)) ==> {
                &&& draft_advanced(*old(self), *final(self))
                &&& final(self).draft.unwrap().on_clock == old(self).draft.unwrap().on_clock + 1
                &&& final(self).draft.unwrap().picks@[old(self).draft.unwrap().on_clock as int].player_id == Some(player_id)
            },
            !draft_running(*old(self)) ==> *final(self) == *old(self),
            old(self).rosters_consistent() && board_free(*old(self))
                && old(self).players@[player_id as int].team is None
                ==> final(self).rosters_consistent() && board_free(*final(self)),
    {
        let ghost s0 = *self;
        let mut d = match self.draft.take() {
            Some(d) => d,
            None => return,
        };
        let n = d.picks.len();
        if d.on_clock >= n {
            self.draft = Some(d);
            return;
        }
        let idx = d.on_clock;
        let pk = d.picks[idx];
        let team_id = pk.team_id;
        let ghost d0 = d;
        d.picks.set(idx, DraftPick { player_id: Some(player_id), ..pk });
        let mut kept: Vec<PlayerId> = Vec::new();
        let mut k: usize = 0;
        while k < d.prospects.len()
            invariant
                k <= d.prospects@.len(),
                d.prospects@ == d0.prospects@,
                kept@ == without(d.prospects@.take(k as int), player_id),
            decreases d.prospects@.len() - k,
        {
            proof {
                assert(d.prospects@.take(k as int + 1).drop_last() =~= d.prospects@.take(k as int));
                reveal_with_fuel(Seq::filter, 1);
            }
            let x = d.prospects[k];
            if x != player_id {
                kept.push(x);
            }
            k = k + 1;
        }
        assert(d.prospects@.take(k as int) =~= d.prospects@);
        d.prospects = kept;
        d.on_clock = idx + 1;
        self.draft = Some(d);
        let season = self.season;
        let pid = player_id as usize;
        self.players[pid].team = Some(team_id);
        self.players[pid].draft_season = Some(season);
        self.players[pid].contract = Contract { salary: rookie_scale(pk.overall), years: 3 };
        if (team_id as usize) < self.teams.len() {
            self.teams[team_id as usize].roster.push(player_id);
        }
        proof {
            let d1 = self.draft.unwrap();
            let made = picks_made(d0, d1);
            assert(made =~= seq![d1.picks@[idx as int]]);
            assert(made.drop_last() =~= Seq::<DraftPick>::empty());
            assert(pick_ids(made) =~= seq![player_id]);
            assert(pick_ids(made).drop_last() =~= Seq::<PlayerId>::empty());
            assert(pick_ids(made).last() == player_id);
            assert(board_after(d0.prospects@, pick_ids(made).drop_last()) == d0.prospects@);
            assert(board_after(d0.prospects@, pick_ids(made)) == without(d0.prospects@, player_id));
            assert(players_after_picks(s0.players@, made.drop_last(), s0.season) == s0.players@);
            assert(self.players@ =~= players_after_picks(s0.players@, made, s0.season));
            assert forall|t: int| 0 <= t < s0.teams@.len() implies (#[trigger] self.teams@[t]) == (Team {
                roster: self.teams@[t].roster, ..s0.teams@[t] })
                && self.teams@[t].roster@ == s0.teams@[t].roster@ + drafted_by(made, t as TeamId) by {
                assert(drafted_by(made.drop_last(), t as TeamId) =~= Seq::<PlayerId>::empty());
                if t == team_id as int {
                    assert(self.teams@[t].roster@ =~= s0.teams@[t].roster@ + drafted_by(made, t as TeamId));
                } else {
                    assert(self.teams@[t].roster@ =~= s0.teams@[t].roster@ + drafted_by(made, t as TeamId));
                }
            }
            assert forall|i: int| 0 <= i < self.players@.len() implies (#[trigger] self.players@[i]).id == i by {
                assert(s0.players@[i].id == i);
            }
            if s0.rosters_consistent() && board_free(s0) && s0.players@[player_id as int].team is None {
                assert forall|t: int, q: int| 0 <= t < self.teams@.len() && 0 <= q < self.teams@[t].roster@.len()
                    implies (#[trigger] self.teams@[t].roster@[q]) < self.players@.len()
                        && self.players@[self.teams@[t].roster@[q] as int].team == Some(t as TeamId) by {
                    if q < s0.teams@[t].roster@.len() {
                        let y = s0.teams@[t].roster@[q];
                        assert(self.teams@[t].roster@[q] == y);
                        assert(s0.players@[y as int].team == Some(t as TeamId));
                    }
                }
                assert forall|t: int, q1: int, q2: int| 0 <= t < self.teams@.len() && 0 <= q1 < q2 < self.teams@[t].roster@.len()
                    implies #[trigger] self.teams@[t].roster@[q1] != #[trigger] self.teams@[t].roster@[q2] by {
                    let r0 = s0.teams@[t].roster@;
                    if q2 < r0.len() {
                        assert(r0[q1] != r0[q2]);
                    } else {
                        assert(s0.players@[r0[q1] as int].team == Some(t as TeamId));
                    }
                }
                let d1 = self.draft.unwrap();
                assert forall|k: int| 0 <= k < d1.prospects@.len() && (d1.prospects@[k] as int) < self.players@.len()
                    implies (#[trigger] self.players@[d1.prospects@[k] as int]).team is None by {
                    let y = d1.prospects@[k];
                    assert(without(d0.prospects@, player_id)[k] == y);
                    lemma_without_contains(d0.prospects@, player_id, y);
                }
            }
            assert forall|t: int, q: int| 0 <= t < self.teams@.len() && 0 <= q < self.teams@[t].roster@.len()
                implies (#[trigger] self.teams@[t].roster@[q]) < self.players@.len() by {
                if q < s0.teams@[t].roster@.len() {
                    assert(self.teams@[t].roster@[q] == s0.teams@[t].roster@[q]);
                }
            }
        }
    }
}

/// `x` is one of the three best real players on the board: ordered best
/// overall first (ties in board order), he is among the first three.
pub open spec fn top_of_board(players: Seq<Player>, board: Seq<PlayerId>, x: PlayerId) -> bool {
    let pool = available(board, players.len() as int);
    exists|order: Seq<usize>, r: int| #[trigger] is_key_order(draft_keys(pool, players), order)
        && 0 <= r < 3 && r < pool.len() && x == pool[#[trigger] order[r] as int]
}

/// The CPU's candidates: the best three real players left on the board.
pub open spec fn cpu_pick_ok(l: League, x: PlayerId) -> bool {
    top_of_board(l.players@, l.draft.unwrap().prospects@, x)
}

/// Every pick of the run took one of the three best players then left on
/// the board.
pub open spec fn picks_from_top(old: League, new: League) -> bool {
    let ids = pick_ids(picks_made(old.draft.unwrap(), new.draft.unwrap()));
    forall|i: int| 0 <= i < ids.len()
        ==> #[trigger] top_of_board(old.players@, board_after(old.draft.unwrap().prospects@, ids.take(i)), ids[i])
}

proof fn lemma_picks_keep_ratings(players: Seq<Player>, made: Seq<DraftPick>, season: u32)
    ensures
        players_after_picks(players, made, season).len() == players.len(),
        forall|i: int| 0 <= i < players.len() ==> #[trigger] players_after_picks(players, made, season)[i].ratings
            == players[i].ratings,
    decreases made.len(),
{
    if made.len() > 0 {
        lemma_picks_keep_ratings(players, made.drop_last(), season);
    }
}

proof fn lemma_top_same_ratings(p1: Seq<Player>, p2: Seq<Player>, board: Seq<PlayerId>, x: PlayerId)
    requires
        p1.len() == p2.len(),
        forall|i: int| 0 <= i < p1.len() ==> #[trigger] p1[i].ratings == p2[i].ratings,
        top_of_board(p1, board, x),
    ensures
        top_of_board(p2, board, x),
{
    let nn = p1.len() as int;
    let pool = available(board, nn);
    let f = |id: PlayerId| (id as int) < nn;
    assert forall|j: int| 0 <= j < pool.len() implies (#[trigger] pool[j] as int) < nn by {
        assert(board.filter(f).contains(pool[j]));
        board.lemma_filter_contains_rev(f, pool[j]);
    }
    assert(draft_keys(pool, p1) =~= draft_keys(pool, p2));
    let (order, r) = choose|order: Seq<usize>, r: int| #[trigger] is_key_order(draft_keys(pool, p1), order)
        && 0 <= r < 3 && r < pool.len() && x == pool[#[trigger] order[r] as int];
    assert(is_key_order(draft_keys(pool, p2), order) && 0 <= r < 3 && r < pool.len() && x == pool[order[r] as int]);
}

impl League {
    /// The CPU's pick from the board: one of the three best available
    /// prospects by overall, chosen at random; `None` when no draft is open or
    /// nobody is left.
    fn cpu_choice(&self, rng: &mut StdRng) -> (c: Option<PlayerId>)
        ensures
            c is None <==> (self.draft is None
                || available(self.draft.unwrap().prospects@, self.players@.len() as int).len() == 0),
            c matches Some(x) ==> cpu_pick_ok(*self, x) && (x as int) < self.players@.len()
                && self.draft.unwrap().prospects@.contains(x),
    {
        let d = match &self.draft {
            Some(d) => d,
            None => return None,
        };
        let n = self.players.len();
        let ghost nn = n as int;
        let mut pool: Vec<PlayerId> = Vec::new();
        let mut k: usize = 0;
        while k < d.prospects.len()
            invariant
                k <= d.prospects@.len(),
                n == self.players@.len(),
                nn == n as int,
                pool@ == available(d.prospects@.take(k as int), nn),
            decreases d.prospects@.len() - k,
        {
            proof {
                assert(d.prospects@.take(k as int + 1).drop_last() =~= d.prospects@.take(k as int));
                reveal_with_fuel(Seq::filter, 1);
            }
            let x = d.prospects[k];
            assert(d.prospects@.take(k as int + 1).last() == x);
            if (x as usize) < n {
                pool.push(x);
            }
            k = k + 1;
        }
        assert(d.prospects@.take(k as int) =~= d.prospects@);
        if pool.len() == 0 {
            return None;
        }
        proof {
            let f = |id: PlayerId| (id as int) < nn;
            assert forall|j: int| 0 <= j < pool@.len() implies (#[trigger] pool@[j] as int) < nn
                && d.prospects@.contains(pool@[j]) by {
                assert(d.prospects@.filter(f).contains(pool@[j]));
                d.prospects@.lemma_filter_contains_rev(f, pool@[j]);
            }
        }
        let mut keys: Vec<u64> = Vec::new();
        let mut j: usize = 0;
        while j < pool.len()
            invariant
                j <= pool@.len(),
                n == self.players@.len(),
                forall|q: int| 0 <= q < pool@.len() ==> (#[trigger] pool@[q] as int) < n,
                keys@ == draft_keys(pool@, self.players@).take(j as int),
            decreases pool@.len() - j,
        {
            let o = self.players[pool[j] as usize].overall();
            keys.push((255 - o) as u64);
            j = j + 1;
            assert(keys@ =~= draft_keys(pool@, self.players@).take(j as int));
        }
        assert(keys@ =~= draft_keys(pool@, self.players@));
        let order = key_order(&keys);
        let top: usize = if pool.len() < 3 { pool.len() } else { 3 };
        let r = rng_below(rng, top);
        let x = pool[order[r]];
        assert(is_key_order(draft_keys(pool@, self.players@), order@) && 0 <= r < 3 && r < pool@.len()
            && x == pool@[order@[r as int] as int]);
        Some(x)
    }
}

/// The user's team is on the clock.
pub open spec fn user_on_clock(l: League) -> bool {
    draft_running(l) && Some(l.draft.unwrap().picks@[l.draft.unwrap().on_clock as int].team_id) == l.user_team_id
}

/// What a run of CPU picks leaves behind: the draft moved on with each pick
/// taking a player still on the board, none of them in the user's slots when
/// the run stops for the user, and the run ended because the draft is over,
/// the board is empty, or (when stopping for the user) the user is up.
pub open spec fn cpu_run(old: League, new: League, stop_at_user: bool) -> bool {
    &&& draft_advanced(old, new)
    &&& picks_from_board(old.draft.unwrap(), new.draft.unwrap())
    &&& picks_from_top(old, new)
    &&& stop_at_user ==> forall|i: int| 0 <= i < picks_made(old.draft.unwrap(), new.draft.unwrap()).len()
        ==> Some(#[trigger] picks_made(old.draft.unwrap(), new.draft.unwrap())[i].team_id) != old.user_team_id
    &&& !draft_running(new)
        || available(new.draft.unwrap().prospects@, new.players@.len() as int).len() == 0
        || (stop_at_user && user_on_clock(new))
}

impl League {
    /// Is the user's team on the clock?
    pub fn is_user_on_clock(&self) -> (b: bool)
        ensures
            b == user_on_clock(*self),
    {
        match &self.draft {
            Some(d) => match d.team_on_clock() {
                Some(t) => Some(t) == self.user_team_id,
                None => false,
            },
            None => false,
        }
    }

    /// No draft is running, or every pick has been made.
    pub fn draft_complete(&self) -> (b: bool)
        ensures
            b == !draft_running(*self),
    {
        match &self.draft {
            Some(d) => d.is_complete(),
            None => true,
        }
    }

    /// The user drafts a prospect with the pick on the clock; nothing happens
    /// unless the user's team is up.
    pub fn draft_user_pick(&mut self, player_id: PlayerId)
        requires
            old(self).wf(),
            (player_id as int) < old(self).players@.len(),
        ensures
            final(self).wf(),
            user_on_clock(*old(self)) ==> {
                &&& draft_advanced(*old(self), *final(self))
                &&& final(self).draft.unwrap().on_clock == old(self).draft.unwrap().on_clock + 1
                &&& final(self).draft.unwrap().picks@[old(self).draft.unwrap().on_clock as int].player_id == Some(player_id)
            },
            !user_on_clock(*old(self)) ==> *final(self) == *old(self),
            old(self).rosters_consistent() && board_free(*old(self))
                && old(self).players@[player_id as int].team is None
                ==> final(self).rosters_consistent() && board_free(*final(self)),
    {
        if self.is_user_on_clock() {
            self.apply_pick(player_id);
        }
    }

    /// CPU picks until the draft is over, the board runs dry, or (when
    /// `stop_at_user`) the user's team is on the clock.
    fn run_cpu_picks(&mut self, rng: &mut StdRng, stop_at_user: bool)
        requires
            old(self).wf(),
            draft_running(*old(self)),
        ensures
            final(self).wf(),
            cpu_run(*old(self), *final(self), stop_at_user),
            old(self).rosters_consistent() && board_free(*old(self))
                ==> final(self).rosters_consistent() && board_free(*final(self)),
    {
        let ghost s0 = *self;
        let ghost keep = s0.rosters_consistent() && board_free(s0);
        proof {
            lemma_advance_refl(s0);
        }
        loop
            invariant
                self.wf(),
                s0.draft is Some,
                draft_advanced(s0, *self),
                picks_from_board(s0.draft.unwrap(), self.draft.unwrap()),
                picks_from_top(s0, *self),
                stop_at_user ==> forall|i: int| 0 <= i < picks_made(s0.draft.unwrap(), self.draft.unwrap()).len()
                    ==> Some(#[trigger] picks_made(s0.draft.unwrap(), self.draft.unwrap())[i].team_id) != s0.user_team_id,
                keep == (s0.rosters_consistent() && board_free(s0)),
                keep ==> self.rosters_consistent() && board_free(*self),
            ensures
                self.wf(),
                cpu_run(s0, *self, stop_at_user),
                keep ==> self.rosters_consistent() && board_free(*self),
            decreases self.draft.unwrap().picks@.len() - self.draft.unwrap().on_clock,
        {
            if self.draft_complete() {
                break;
            }
            if stop_at_user && self.is_user_on_clock() {
                break;
            }
            let ghost before = *self;
            match self.cpu_choice(rng) {
                Some(pid) => {
                    proof {
                        if keep {
                            let d = before.draft.unwrap();
                            let k = choose|k: int| 0 <= k < d.prospects@.len() && d.prospects@[k] == pid;
                            assert(before.players@[d.prospects@[k] as int].team is None);
                        }
                    }
                    self.apply_pick(pid);
                    proof {
                        lemma_advance_step(s0, before, *self);
                        let m0 = picks_made(s0.draft.unwrap(), before.draft.unwrap());
                        let m1 = picks_made(s0.draft.unwrap(), self.draft.unwrap());
                        assert(m1 =~= m0.push(self.draft.unwrap().picks@[before.draft.unwrap().on_clock as int])) by {
                            assert forall|i: int| 0 <= i < m0.len() implies m1[i] == m0[i] by {
                                let j = s0.draft.unwrap().on_clock + i;
                                assert(self.draft.unwrap().picks@[j] == before.draft.unwrap().picks@[j]);
                            }
                        }
                        let bd = before.draft.unwrap();
                        assert(self.draft.unwrap().picks@[bd.on_clock as int].team_id == bd.picks@[bd.on_clock as int].team_id);
                        // The new pick came from the top of the board as it stood.
                        let i0 = pick_ids(m0);
                        let i1 = pick_ids(m1);
                        assert(i1 =~= i0.push(pid));
                        lemma_picks_keep_ratings(s0.players@, m0, s0.season);
                        assert forall|i: int| 0 <= i < s0.players@.len() implies #[trigger] before.players@[i].ratings
                            == s0.players@[i].ratings by {}
                        lemma_top_same_ratings(before.players@, s0.players@, bd.prospects@, pid);
                        assert forall|i: int| 0 <= i < i1.len() implies #[trigger] top_of_board(s0.players@,
                            board_after(s0.draft.unwrap().prospects@, i1.take(i)), i1[i]) by {
                            if i < i0.len() {
                                assert(i1.take(i) =~= i0.take(i));
                                assert(i1[i] == i0[i]);
                            } else {
                                assert(i1.take(i) =~= i0);
                            }
                        }
                    }
                }
                None => {
                    break;
                }
            }
        }
    }

    /// The CPU makes picks until the user's team is on the clock or the
    /// draft ends.
    pub fn draft_sim_to_user(&mut self)
        requires
            old(self).wf(),
        ensures
            final(self).wf(),
            draft_running(*old(self)) ==> cpu_run(*old(self), *final(self), true),
            !draft_running(*old(self)) ==> *final(self) == *old(self),
            old(self).rosters_consistent() && board_free(*old(self))
                ==> final(self).rosters_consistent() && board_free(*final(self)),
    {
        if self.draft_complete() {
            return;
        }
        let on = match &self.draft {
            Some(d) => d.on_clock,
            None => 0,
        };
        let mut rng = rng_from_seed(self.seed ^ (0xC9u64 * 7) ^ on as u64);
        self.run_cpu_picks(&mut rng, true);
    }

    /// The CPU makes every remaining pick, the user's included.
    pub fn draft_sim_all(&mut self)
        requires
            old(self).wf(),
        ensures
            final(self).wf(),
            draft_running(*old(self)) ==> cpu_run(*old(self), *final(self), false),
            !draft_running(*old(self)) ==> *final(self) == *old(self),
            old(self).rosters_consistent() && board_free(*old(self))
                ==> final(self).rosters_consistent() && board_free(*final(self)),
    {
        if self.draft_complete() {
            return;
        }
        let on = match &self.draft {
            Some(d) => d.on_clock,
            None => 0,
        };
        let mut rng = rng_from_seed(self.seed ^ (0xA11u64 * 13) ^ on as u64);
        self.run_cpu_picks(&mut rng, false);
    }
}

proof fn lemma_board_after_members(p: Seq<PlayerId>, ids: Seq<PlayerId>, x: PlayerId)
    requires
        board_after(p, ids).contains(x),
    ensures
        p.contains(x),
        !ids.contains(x),
    decreases ids.len(),
{
    if ids.len() > 0 {
        lemma_without_contains(board_after(p, ids.drop_last()), ids.last(), x);
        lemma_board_after_members(p, ids.drop_last(), x);
        if ids.contains(x) {
            let j = choose|j: int| 0 <= j < ids.len() && ids[j] == x;
            if j < ids.len() - 1 {
                assert(ids.drop_last()[j] == x);
            }
        }
    }
}

/// No player is drafted twice: the picks of a run that always took a player
/// still on the board name distinct players, each from the original board.
pub proof fn lemma_draft_picks_distinct(d0: Draft, d1: Draft)
    requires
        picks_from_board(d0, d1),
    ensures
        forall|i: int, j: int| 0 <= i < j < pick_ids(picks_made(d0, d1)).len()
            ==> #[trigger] pick_ids(picks_made(d0, d1))[i] != #[trigger] pick_ids(picks_made(d0, d1))[j],
        forall|i: int| 0 <= i < pick_ids(picks_made(d0, d1)).len()
            ==> d0.prospects@.contains(#[trigger] pick_ids(picks_made(d0, d1))[i]),
{
    let ids = pick_ids(picks_made(d0, d1));
    assert forall|i: int, j: int| 0 <= i < j < ids.len() implies #[trigger] ids[i] != #[trigger] ids[j] by {
        assert(board_after(d0.prospects@, ids.take(j)).contains(ids[j]));
        lemma_board_after_members(d0.prospects@, ids.take(j), ids[j]);
        assert(ids.take(j)[i] == ids[i]);
    }
    assert forall|i: int| 0 <= i < ids.len() implies d0.prospects@.contains(#[trigger] ids[i]) by {
        assert(board_after(d0.prospects@, ids.take(i)).contains(ids[i]));
        lemma_board_after_members(d0.prospects@, ids.take(i), ids[i]);
    }
}

proof fn lemma_drafted_by_contains(made: Seq<DraftPick>, i: int)
    requires
        0 <= i < made.len(),
    ensures
        drafted_by(made, made[i].team_id).contains(made[i].player_id.unwrap()),
    decreases made.len(),
{
    let t = made[i].team_id;
    if i < made.len() - 1 {
        lemma_drafted_by_contains(made.drop_last(), i);
        let a = drafted_by(made.drop_last(), t);
        let k = choose|k: int| 0 <= k < a.len() && a[k] == made[i].player_id.unwrap();
        assert(drafted_by(made, t)[k] == a[k]);
    } else {
        let a = drafted_by(made.drop_last(), t);
        assert(drafted_by(made, t)[a.len() as int] == made[i].player_id.unwrap());
    }
}

/// After the draft moves on, every player taken is on the roster of the team
/// that took him.
pub proof fn lemma_drafted_on_roster(old: League, new: League, i: int)
    requires
        draft_advanced(old, new),
        0 <= i < picks_made(old.draft.unwrap(), new.draft.unwrap()).len(),
        (picks_made(old.draft.unwrap(), new.draft.unwrap())[i].team_id as int) < old.teams@.len(),
    ensures
        ({
            let pk = picks_made(old.draft.unwrap(), new.draft.unwrap())[i];
            new.teams@[pk.team_id as int].roster@.contains(pk.player_id.unwrap())
        }),
{
    let made = picks_made(old.draft.unwrap(), new.draft.unwrap());
    let pk = made[i];
    let t = pk.team_id as int;
    lemma_drafted_by_contains(made, i);
    let a = drafted_by(made, pk.team_id);
    let k = choose|k: int| 0 <= k < a.len() && a[k] == pk.player_id.unwrap();
    let r0 = old.teams@[t].roster@;
    assert(new.teams@[t].roster@ == r0 + drafted_by(made, t as TeamId));
    assert(new.teams@[t].roster@[r0.len() + k] == pk.player_id.unwrap());
}

} // verus!
