//! Trades between the user's team and a CPU team: the draft-pick assets that
//! can change hands, the legality rules every trade must pass, and carrying a
//! trade out. (How much the CPU values a package is a real-valued judgment
//! made by the application layer; it hands the verdict in.)

use vstd::prelude::*;
use crate::league::{salary_total, League, OwnedPick, ROSTER_MAX, SALARY_CAP};
use crate::order::{is_key_order, key_order};
use crate::player::Player;
use crate::team::Team;
use crate::text::{decimal, decimal_string};
use crate::types::{PlayerId, TeamId};

verus! {

/// No pick before position `k` has the same id as the pick at `k`.
pub open spec fn first_with_id(a: Seq<OwnedPick>, k: int) -> bool {
    forall|j: int| 0 <= j < k ==> (#[trigger] a[j]).id != a[k].id
}

/// The first pick record with the given id, if any.
pub open spec fn pick_with_id(a: Seq<OwnedPick>, id: u32) -> Option<OwnedPick>
    decreases a.len(),
{
    if a.len() == 0 {
        None
    } else {
        let f = pick_with_id(a.drop_last(), id);
        if f is Some {
            f
        } else if a.last().id == id {
            Some(a.last())
        } else {
            None
        }
    }
}

/// The picks a team owns.
pub open spec fn owned_by(a: Seq<OwnedPick>, tid: TeamId) -> Seq<OwnedPick> {
    a.filter(|pk: OwnedPick| pk.owner == tid)
}

/// Sort keys for picks: by draft year, then round.
pub open spec fn pick_keys(a: Seq<OwnedPick>) -> Seq<u64> {
    a.map_values(|pk: OwnedPick| (pk.season as int * 256 + pk.round as int) as u64)
}

/// "1st" or "2nd".
pub open spec fn round_text(round: u8) -> Seq<char> {
    if round == 1 { "1st"@ } else { "2nd"@ }
}

/// The abbreviation of a team, empty for an unknown one.
pub open spec fn abbrev_of(teams: Seq<Team>, tid: TeamId) -> Seq<char> {
    if (tid as int) < teams.len() { teams[tid as int].abbrev@ } else { Seq::empty() }
}

/// A pick's label, e.g. "2027 1st (CIN)".
pub open spec fn pick_label_text(teams: Seq<Team>, pk: OwnedPick) -> Seq<char> {
    decimal(pk.season as nat) + " "@ + round_text(pk.round) + " ("@ + abbrev_of(teams, pk.original) + ")"@
}

impl League {
    /// The first pick record with the given id.
    fn pick_by_id(&self, id: u32) -> (r: Option<OwnedPick>)
        ensures
            r == pick_with_id(self.pick_assets@, id),
    {
        let mut found: Option<OwnedPick> = None;
        let mut a: usize = 0;
        while a < self.pick_assets.len()
            invariant
                a <= self.pick_assets@.len(),
                found == pick_with_id(self.pick_assets@.take(a as int), id),
            decreases self.pick_assets@.len() - a,
        {
            proof {
                assert(self.pick_assets@.take(a as int + 1).drop_last() =~= self.pick_assets@.take(a as int));
            }
            let pk = self.pick_assets[a];
            if found.is_none() && pk.id == id {
                found = Some(pk);
            }
            a = a + 1;
        }
        assert(self.pick_assets@.take(a as int) =~= self.pick_assets@);
        found
    }

    /// All picks a team owns, soonest draft first (1st before 2nd within a
    /// year; otherwise in record order).
    pub fn picks_owned_by(&self, tid: TeamId) -> (v: Vec<OwnedPick>)
        ensures
            exists|order: Seq<usize>| #[trigger] is_key_order(pick_keys(owned_by(self.pick_assets@, tid)), order)
                && v@ == order.map_values(|i: usize| owned_by(self.pick_assets@, tid)[i as int]),
    {
        let ghost mine = owned_by(self.pick_assets@, tid);
        let mut own: Vec<OwnedPick> = Vec::new();
        let mut a: usize = 0;
        while a < self.pick_assets.len()
            invariant
                a <= self.pick_assets@.len(),
                own@ == owned_by(self.pick_assets@.take(a as int), tid),
            decreases self.pick_assets@.len() - a,
        {
            proof {
                assert(self.pick_assets@.take(a as int + 1).drop_last() =~= self.pick_assets@.take(a as int));
                reveal_with_fuel(Seq::filter, 1);
            }
            let pk = self.pick_assets[a];
            if pk.owner == tid {
                own.push(pk);
            }
            a = a + 1;
        }
        assert(self.pick_assets@.take(a as int) =~= self.pick_assets@);
        let mut keys: Vec<u64> = Vec::new();
        let mut j: usize = 0;
        while j < own.len()
            invariant
                j <= own@.len(),
                keys@ == pick_keys(own@).take(j as int),
            decreases own@.len() - j,
        {
            keys.push(own[j].season as u64 * 256 + own[j].round as u64);
            j = j + 1;
            assert(keys@ =~= pick_keys(own@).take(j as int));
        }
        assert(keys@ =~= pick_keys(own@));
        let order = key_order(&keys);
        let mut v: Vec<OwnedPick> = Vec::new();
        let mut q: usize = 0;
        while q < order.len()
            invariant
                q <= order@.len(),
                is_key_order(keys@, order@),
                keys@.len() == own@.len(),
                own@ == mine,
                v@ == order@.take(q as int).map_values(|i: usize| mine[i as int]),
            decreases order@.len() - q,
        {
            v.push(own[order[q]]);
            q = q + 1;
            assert(v@ =~= order@.take(q as int).map_values(|i: usize| mine[i as int]));
        }
        assert(order@.take(q as int) =~= order@);
        v
    }

    /// A short label for a pick, e.g. "2027 1st (CIN)"; just "pick" for an
    /// unknown id.
    pub fn pick_label(&self, id: u32) -> (s: String)
        requires
            self.wf(),
        ensures
            s@ == match pick_with_id(self.pick_assets@, id) {
                None => "pick"@,
                Some(pk) => pick_label_text(self.teams@, pk),
            },
    {
        match self.pick_by_id(id) {
            None => String::from_str("pick"),
            Some(pk) => {
                let mut s = decimal_string(pk.season);
                s.append(" ");
                s.append(if pk.round == 1 { "1st" } else { "2nd" });
                s.append(" (");
                if (pk.original as usize) < self.teams.len() {
                    s.append(self.teams[pk.original as usize].abbrev.as_str());
                }
                s.append(")");
                s
            }
        }
    }
}

/// Why a proposed trade can or cannot go ahead, before the CPU weighs what
/// it gets.
#[derive(Debug, Clone, Copy, PartialEq, Eq, Structural)]
pub enum TradeVerdict {
    NoTeam,
    NothingOffered,
    RosterOver,
    RosterUnder,
    SalaryMismatch,
    Legal,
}

pub open spec fn verdict_message(v: TradeVerdict) -> Seq<char> {
    match v {
        TradeVerdict::NoTeam => "No team selected."@,
        TradeVerdict::NothingOffered => "Add assets to both sides."@,
        TradeVerdict::RosterOver => "That would put a team over the 15-man roster limit."@,
        TradeVerdict::RosterUnder => "Both teams must keep at least one player."@,
        TradeVerdict::SalaryMismatch => "Salaries don't match (must be within ~25% unless under the cap)."@,
        TradeVerdict::Legal => ""@,
    }
}

impl TradeVerdict {
    /// What to tell the user (empty for a legal trade, whose message is the
    /// CPU's answer).
    pub fn message(&self) -> (s: &'static str)
        ensures
            s@ == verdict_message(*self),
    {
        match self {
            TradeVerdict::NoTeam => "No team selected.",
            TradeVerdict::NothingOffered => "Add assets to both sides.",
            TradeVerdict::RosterOver => "That would put a team over the 15-man roster limit.",
            TradeVerdict::RosterUnder => "Both teams must keep at least one player.",
            TradeVerdict::SalaryMismatch => "Salaries don't match (must be within ~25% unless under the cap).",
            TradeVerdict::Legal => "",
        }
    }
}

/// A team may take on salary if it ends under the cap, or if what comes in
/// is at most 125% of what goes out plus 1,000.
pub open spec fn salary_ok(post_payroll: int, incoming: int, outgoing: int) -> bool {
    post_payroll <= SALARY_CAP || 4 * incoming <= 5 * outgoing + 4_000
}

/// Roster length of a team (0 for an unknown team).
pub open spec fn roster_size(l: League, tid: TeamId) -> int {
    if (tid as int) < l.teams@.len() { l.teams@[tid as int].roster@.len() as int } else { 0 }
}

/// The legality ruling on a proposed trade: the user sends `give` and the
/// picks `gp`, and receives `get` and the picks `rp`, from team `other`.
pub open spec fn trade_verdict_of(l: League, other: TeamId, give: Seq<PlayerId>, gp: Seq<u32>,
    get: Seq<PlayerId>, rp: Seq<u32>) -> TradeVerdict {
    match l.user_team_id {
        None => TradeVerdict::NoTeam,
        Some(user) => if give.len() == 0 && get.len() == 0 && gp.len() == 0 && rp.len() == 0 {
            TradeVerdict::NothingOffered
        } else {
            let us = roster_size(l, user) - give.len() + get.len();
            let os = roster_size(l, other) - get.len() + give.len();
            if us > ROSTER_MAX || os > ROSTER_MAX {
                TradeVerdict::RosterOver
            } else if us < 1 || os < 1 {
                TradeVerdict::RosterUnder
            } else {
                let out_s = salary_total(l.players@, give);
                let in_s = salary_total(l.players@, get);
                if salary_ok(l.payroll_of(user) - out_s + in_s, in_s, out_s)
                    && salary_ok(l.payroll_of(other) - in_s + out_s, out_s, in_s) {
                    TradeVerdict::Legal
                } else {
                    TradeVerdict::SalaryMismatch
                }
            }
        },
    }
}

/// The salary rule binds both sides of a trade: a trade that is
/// offered, leaves both rosters between 1 and 15 players, is legal exactly
/// when each team either ends at or under the cap or takes in no more than
/// 125% of the salary it sends out plus 1,000.
pub proof fn lemma_salary_rule_both_sides(l: League, other: TeamId, give: Seq<PlayerId>, gp: Seq<u32>,
    get: Seq<PlayerId>, rp: Seq<u32>)
    requires
        l.user_team_id is Some,
        give.len() + get.len() + gp.len() + rp.len() > 0,
        1 <= roster_size(l, l.user_team_id.unwrap()) - give.len() + get.len() <= ROSTER_MAX,
        1 <= roster_size(l, other) - get.len() + give.len() <= ROSTER_MAX,
    ensures
        ({
            let user = l.user_team_id.unwrap();
            let out_s = salary_total(l.players@, give);
            let in_s = salary_total(l.players@, get);
            let user_fine = l.payroll_of(user) - out_s + in_s <= SALARY_CAP || 4 * in_s <= 5 * out_s + 4_000;
            let other_fine = l.payroll_of(other) - in_s + out_s <= SALARY_CAP || 4 * out_s <= 5 * in_s + 4_000;
            &&& (trade_verdict_of(l, other, give, gp, get, rp) == TradeVerdict::Legal) == (user_fine && other_fine)
            &&& (trade_verdict_of(l, other, give, gp, get, rp) == TradeVerdict::SalaryMismatch) == !(user_fine && other_fine)
        }),
{
}

/// The sums a trade ruling adds up fit in 32 bits.
pub open spec fn trade_sums_fit(l: League, other: TeamId, give: Seq<PlayerId>, get: Seq<PlayerId>) -> bool {
    &&& salary_total(l.players@, give) <= u32::MAX
    &&& salary_total(l.players@, get) <= u32::MAX
    &&& l.payroll_of(other) <= u32::MAX
    &&& l.user_team_id matches Some(u) ==> l.payroll_of(u) <= u32::MAX
}

impl League {
    /// Is a team's incoming salary legal given what it sends out? (It ends
    /// under the cap, or salaries match within 25% plus 1,000.)
    pub fn salary_legal(&self, post_payroll: i64, incoming: u32, outgoing: u32) -> (b: bool)
        ensures
            b == salary_ok(post_payroll as int, incoming as int, outgoing as int),
    {
        post_payroll <= SALARY_CAP as i64 || 4 * (incoming as u64) <= 5 * (outgoing as u64) + 4_000
    }

    /// Rule on a proposed trade: a team must be selected, something must
    /// change hands, both rosters must end with 1 to 15 players, and each
    /// team's salary intake must be legal.
    pub fn trade_verdict(&self, other: TeamId, give_players: &[PlayerId], give_picks: &[u32],
        get_players: &[PlayerId], get_picks: &[u32]) -> (v: TradeVerdict)
        requires
            self.wf(),
            trade_sums_fit(*self, other, give_players@, get_players@),
        ensures
            v == trade_verdict_of(*self, other, give_players@, give_picks@, get_players@, get_picks@),
    {
        let user = match self.user_team_id {
            Some(u) => u,
            None => return TradeVerdict::NoTeam,
        };
        if give_players.len() == 0 && get_players.len() == 0 && give_picks.len() == 0 && get_picks.len() == 0 {
            return TradeVerdict::NothingOffered;
        }
        let user_size = self.roster_len(user) as i128 - give_players.len() as i128 + get_players.len() as i128;
        let other_size = self.roster_len(other) as i128 - get_players.len() as i128 + give_players.len() as i128;
        if user_size > ROSTER_MAX as i128 || other_size > ROSTER_MAX as i128 {
            return TradeVerdict::RosterOver;
        }
        if user_size < 1 || other_size < 1 {
            return TradeVerdict::RosterUnder;
        }
        let out_s = self.sum_salary(give_players);
        let in_s = self.sum_salary(get_players);
        let user_post = self.team_payroll(user) as i64 - out_s as i64 + in_s as i64;
        let other_post = self.team_payroll(other) as i64 - in_s as i64 + out_s as i64;
        if self.salary_legal(user_post, in_s, out_s) && self.salary_legal(other_post, out_s, in_s) {
            TradeVerdict::Legal
        } else {
            TradeVerdict::SalaryMismatch
        }
    }
}

/// Every id names a real player on team `t`.
pub open spec fn all_on_team(players: Seq<Player>, ids: Seq<PlayerId>, t: TeamId) -> bool {
    forall|i: int| 0 <= i < ids.len() ==> (#[trigger] ids[i] as int) < players.len()
        && players[ids[i] as int].team == Some(t)
}

/// Every pick id names a pick record held by `t`.
pub open spec fn all_held_by(a: Seq<OwnedPick>, ids: Seq<u32>, t: TeamId) -> bool {
    forall|i: int| 0 <= i < ids.len() ==> ((#[trigger] pick_with_id(a, ids[i])) matches Some(pk) && pk.owner == t)
}

/// Everything a trade needs before it goes ahead: a team is selected, each
/// side owns what it sends, the ruling is `Legal` and the CPU accepts.
pub open spec fn trade_goes_ahead(l: League, other: TeamId, give: Seq<PlayerId>, gp: Seq<u32>,
    get: Seq<PlayerId>, rp: Seq<u32>, cpu_accepts: bool) -> bool {
    match l.user_team_id {
        None => false,
        Some(user) => all_on_team(l.players@, give, user) && all_on_team(l.players@, get, other)
            && all_held_by(l.pick_assets@, gp, user) && all_held_by(l.pick_assets@, rp, other)
            && trade_verdict_of(l, other, give, gp, get, rp) == TradeVerdict::Legal && cpu_accepts,
    }
}

/// A roster without the listed players.
pub open spec fn keep(r: Seq<PlayerId>, xs: Seq<PlayerId>) -> Seq<PlayerId> {
    r.filter(|x: PlayerId| !xs.contains(x))
}

/// A team's roster after the trade: the user's side loses `give` and gains
/// `get`, then the other side loses `get` and gains `give`.
pub open spec fn traded_roster(r0: Seq<PlayerId>, t: int, user: TeamId, other: TeamId,
    give: Seq<PlayerId>, get: Seq<PlayerId>) -> Seq<PlayerId> {
    let r1 = if t == user as int { keep(r0, give) + get } else { r0 };
    if t == other as int { keep(r1, get) + give } else { r1 }
}

/// A player after the trade: the players received join the user, the ones
/// sent join the other team.
pub open spec fn traded_player(p: Player, id: PlayerId, user: TeamId, other: TeamId,
    give: Seq<PlayerId>, get: Seq<PlayerId>) -> Player {
    if get.contains(id) {
        Player { team: Some(user), ..p }
    } else if give.contains(id) {
        Player { team: Some(other), ..p }
    } else {
        p
    }
}

/// A pick record after the trade: the first record with a traded id changes
/// owner.
pub open spec fn traded_pick(a: Seq<OwnedPick>, k: int, user: TeamId, other: TeamId,
    gp: Seq<u32>, rp: Seq<u32>) -> OwnedPick {
    if first_with_id(a, k) && rp.contains(a[k].id) {
        OwnedPick { owner: user, ..a[k] }
    } else if first_with_id(a, k) && gp.contains(a[k].id) {
        OwnedPick { owner: other, ..a[k] }
    } else {
        a[k]
    }
}

/// No id appears twice.
pub open spec fn distinct_ids(s: Seq<PlayerId>) -> bool {
    forall|i: int, j: int| 0 <= i < j < s.len() ==> #[trigger] s[i] != #[trigger] s[j]
}

proof fn lemma_keep_contains(r: Seq<PlayerId>, xs: Seq<PlayerId>, e: PlayerId)
    ensures
        keep(r, xs).contains(e) <==> (r.contains(e) && !xs.contains(e)),
    decreases r.len(),
{
    reveal_with_fuel(Seq::filter, 1);
    if r.len() > 0 {
        let w = keep(r.drop_last(), xs);
        assert(keep(r, xs) == (if !xs.contains(r.last()) { w.push(r.last()) } else { w }));
        lemma_keep_contains(r.drop_last(), xs, e);
        if keep(r, xs).contains(e) {
            let i = choose|i: int| 0 <= i < keep(r, xs).len() && keep(r, xs)[i] == e;
            if i < w.len() {
                assert(w[i] == e);
                let j = choose|j: int| 0 <= j < r.drop_last().len() && r.drop_last()[j] == e;
                assert(r[j] == e);
            } else {
                assert(r[r.len() - 1] == e);
            }
        }
        if r.contains(e) && !xs.contains(e) {
            let j = choose|j: int| 0 <= j < r.len() && r[j] == e;
            if j < r.len() - 1 {
                assert(r.drop_last()[j] == e);
                let i = choose|i: int| 0 <= i < w.len() && w[i] == e;
                assert(keep(r, xs)[i] == e);
            } else {
                assert(keep(r, xs)[keep(r, xs).len() - 1] == e);
            }
        }
    } else {
        assert(!keep(r, xs).contains(e));
    }
}

proof fn lemma_keep_distinct(r: Seq<PlayerId>, xs: Seq<PlayerId>)
    requires
        distinct_ids(r),
    ensures
        distinct_ids(keep(r, xs)),
    decreases r.len(),
{
    reveal_with_fuel(Seq::filter, 1);
    if r.len() > 0 {
        let w = keep(r.drop_last(), xs);
        assert(distinct_ids(r.drop_last())) by {
            assert forall|i: int, j: int| 0 <= i < j < r.drop_last().len()
                implies #[trigger] r.drop_last()[i] != #[trigger] r.drop_last()[j] by {
                assert(r[i] != r[j]);
            }
        }
        lemma_keep_distinct(r.drop_last(), xs);
        assert(keep(r, xs) == (if !xs.contains(r.last()) { w.push(r.last()) } else { w }));
        if !xs.contains(r.last()) {
            assert forall|i: int| 0 <= i < w.len() implies w[i] != r.last() by {
                lemma_keep_contains(r.drop_last(), xs, w[i]);
                assert(w.contains(w[i]));
                let j = choose|j: int| 0 <= j < r.drop_last().len() && r.drop_last()[j] == w[i];
                assert(r[j] != r[r.len() - 1]);
            }
            let k = w.push(r.last());
            assert forall|i: int, j: int| 0 <= i < j < k.len() implies #[trigger] k[i] != #[trigger] k[j] by {
                if j < w.len() {
                    assert(w[i] != w[j]);
                }
            }
        }
    }
}

proof fn lemma_keep_append_dropped(x: Seq<PlayerId>, w: Seq<PlayerId>, y: Seq<PlayerId>)
    requires
        forall|i: int| 0 <= i < w.len() ==> y.contains(#[trigger] w[i]),
    ensures
        keep(x + w, y) == keep(x, y),
    decreases w.len(),
{
    reveal_with_fuel(Seq::filter, 1);
    if w.len() == 0 {
        assert(x + w =~= x);
    } else {
        assert((x + w).drop_last() =~= x + w.drop_last());
        assert((x + w).last() == w.last());
        assert(y.contains(w[w.len() - 1]));
        lemma_keep_append_dropped(x, w.drop_last(), y);
    }
}

/// A roster of players all on team `t`, none listed twice.
pub open spec fn roster_ok(players: Seq<Player>, r: Seq<PlayerId>, t: TeamId) -> bool {
    &&& forall|k: int| 0 <= k < r.len() ==> (#[trigger] r[k] as int) < players.len()
        && players[r[k] as int].team == Some(t)
    &&& distinct_ids(r)
}

proof fn lemma_roster_concat(players: Seq<Player>, a: Seq<PlayerId>, b: Seq<PlayerId>, t: TeamId)
    requires
        roster_ok(players, a, t),
        roster_ok(players, b, t),
        forall|i: int| 0 <= i < a.len() ==> !b.contains(#[trigger] a[i]),
    ensures
        roster_ok(players, a + b, t),
{
    let c = a + b;
    assert forall|k: int| 0 <= k < c.len() implies (#[trigger] c[k] as int) < players.len()
        && players[c[k] as int].team == Some(t) by {
        if k < a.len() { assert(c[k] == a[k]); } else { assert(c[k] == b[k - a.len()]); }
    }
    assert forall|i: int, j: int| 0 <= i < j < c.len() implies #[trigger] c[i] != #[trigger] c[j] by {
        if j < a.len() {
            assert(a[i] != a[j]);
        } else if i >= a.len() {
            assert(b[i - a.len()] != b[j - a.len()]);
        } else {
            assert(!b.contains(a[i]));
            assert(b[j - a.len()] == c[j]);
        }
    }
}

proof fn lemma_keep_roster(p0: Seq<Player>, p1: Seq<Player>, r: Seq<PlayerId>, xs: Seq<PlayerId>, t: TeamId)
    requires
        roster_ok(p0, r, t),
        p1.len() == p0.len(),
        forall|i: int| 0 <= i < r.len() && !xs.contains(#[trigger] r[i]) ==> p1[r[i] as int].team == Some(t),
    ensures
        roster_ok(p1, keep(r, xs), t),
        forall|i: int| 0 <= i < keep(r, xs).len() ==> r.contains(#[trigger] keep(r, xs)[i])
            && !xs.contains(keep(r, xs)[i]),
{
    let w = keep(r, xs);
    assert forall|i: int| 0 <= i < w.len() implies r.contains(#[trigger] w[i]) && !xs.contains(w[i]) by {
        assert(w.contains(w[i]));
        lemma_keep_contains(r, xs, w[i]);
    }
    assert forall|k: int| 0 <= k < w.len() implies (#[trigger] w[k] as int) < p1.len()
        && p1[w[k] as int].team == Some(t) by {
        assert(r.contains(w[k]));
        let j = choose|j: int| 0 <= j < r.len() && r[j] == w[k];
        assert(!xs.contains(r[j]));
    }
    lemma_keep_distinct(r, xs);
}

proof fn lemma_list_roster(p1: Seq<Player>, ids: Seq<PlayerId>, t: TeamId)
    requires
        distinct_ids(ids),
        forall|i: int| 0 <= i < ids.len() ==> (#[trigger] ids[i] as int) < p1.len() && p1[ids[i] as int].team == Some(t),
    ensures
        roster_ok(p1, ids, t),
{
}

/// A trade between consistent rosters, with no player listed twice on
/// either side, leaves the rosters consistent.
proof fn lemma_trade_consistent(l0: League, l1: League, user: TeamId, other: TeamId,
    give: Seq<PlayerId>, get: Seq<PlayerId>)
    requires
        l0.wf(),
        l0.rosters_consistent(),
        all_on_team(l0.players@, give, user),
        all_on_team(l0.players@, get, other),
        distinct_ids(give),
        distinct_ids(get),
        l1.players@.len() == l0.players@.len(),
        forall|i: int| 0 <= i < l0.players@.len() ==> #[trigger] l1.players@[i]
            == traded_player(l0.players@[i], i as PlayerId, user, other, give, get),
        l1.teams@.len() == l0.teams@.len(),
        forall|t: int| 0 <= t < l0.teams@.len() ==> (#[trigger] l1.teams@[t]).roster@
            == traded_roster(l0.teams@[t].roster@, t, user, other, give, get),
    ensures
        l1.rosters_consistent(),
{
    let p0 = l0.players@;
    let p1 = l1.players@;
    assert forall|i: int| 0 <= i < give.len() implies !get.contains(#[trigger] give[i]) || user == other by {
        if get.contains(give[i]) {
            let j = choose|j: int| 0 <= j < get.len() && get[j] == give[i];
            assert(p0[get[j] as int].team == Some(other));
        }
    }
    assert forall|t: int| 0 <= t < l0.teams@.len() implies roster_ok(p1, #[trigger] l1.teams@[t].roster@, t as TeamId) by {
        let r0 = l0.teams@[t].roster@;
        let tt = t as TeamId;
        assert(roster_ok(p0, r0, tt)) by {
            assert forall|k: int| 0 <= k < r0.len() implies (#[trigger] r0[k] as int) < p0.len()
                && p0[r0[k] as int].team == Some(tt) by {
                assert(l0.teams@[t].roster@[k] == r0[k]);
            }
            assert forall|i: int, j: int| 0 <= i < j < r0.len() implies #[trigger] r0[i] != #[trigger] r0[j] by {
                assert(l0.teams@[t].roster@[i] != l0.teams@[t].roster@[j]);
            }
        }
        // Members of r0 are on team t, so they are in `give` only when t is the
        // user's team and in `get` only when t is the other team.
        assert forall|k: int| 0 <= k < r0.len() implies
            (give.contains(#[trigger] r0[k]) ==> t == user as int) && (get.contains(r0[k]) ==> t == other as int) by {
            if give.contains(r0[k]) {
                let j = choose|j: int| 0 <= j < give.len() && give[j] == r0[k];
                assert(p0[give[j] as int].team == Some(user));
            }
            if get.contains(r0[k]) {
                let j = choose|j: int| 0 <= j < get.len() && get[j] == r0[k];
                assert(p0[get[j] as int].team == Some(other));
            }
        }
        if t != user as int && t != other as int {
            assert forall|k: int| 0 <= k < r0.len() implies (#[trigger] r0[k] as int) < p1.len()
                && p1[r0[k] as int].team == Some(tt) by {
                assert(p1[r0[k] as int] == p0[r0[k] as int]) by {
                    assert(p0[r0[k] as int].id == r0[k] as int);
                }
            }
        } else if t == user as int && t != other as int {
            lemma_keep_roster(p0, p1, r0, give, tt);
            assert forall|i: int| 0 <= i < get.len() implies (#[trigger] get[i] as int) < p1.len()
                && p1[get[i] as int].team == Some(tt) by {
                assert(get.contains(get[i]));
                assert(p0[get[i] as int].id == get[i] as int);
            }
            lemma_list_roster(p1, get, tt);
            let a = keep(r0, give);
            assert forall|i: int| 0 <= i < a.len() implies !get.contains(#[trigger] a[i]) by {
                assert(r0.contains(a[i]));
            }
            lemma_roster_concat(p1, a, get, tt);
        } else if t == other as int && t != user as int {
            lemma_keep_roster(p0, p1, r0, get, tt);
            assert forall|i: int| 0 <= i < give.len() implies (#[trigger] give[i] as int) < p1.len()
                && p1[give[i] as int].team == Some(tt) by {
                assert(give.contains(give[i]));
                assert(p0[give[i] as int].id == give[i] as int);
            }
            lemma_list_roster(p1, give, tt);
            let a = keep(r0, get);
            assert forall|i: int| 0 <= i < a.len() implies !give.contains(#[trigger] a[i]) by {
                assert(r0.contains(a[i]));
            }
            lemma_roster_concat(p1, a, give, tt);
        } else {
            assert forall|i: int| 0 <= i < get.len() implies get.contains(#[trigger] get[i]) by {}
            lemma_keep_append_dropped(keep(r0, give), get, get);
            lemma_keep_roster(p0, p0, r0, give, tt);
            let a0 = keep(r0, give);
            assert forall|i: int| 0 <= i < a0.len() && !get.contains(#[trigger] a0[i])
                implies p1[a0[i] as int].team == Some(tt) by {
                assert(r0.contains(a0[i]));
                assert(!give.contains(a0[i]));
                let j = choose|j: int| 0 <= j < r0.len() && r0[j] == a0[i];
                assert(p0[r0[j] as int].id == r0[j] as int);
            }
            lemma_keep_roster(p0, p1, a0, get, tt);
            assert forall|i: int| 0 <= i < give.len() implies (#[trigger] give[i] as int) < p1.len()
                && p1[give[i] as int].team == Some(tt) by {
                assert(give.contains(give[i]));
                assert(p0[give[i] as int].id == give[i] as int);
            }
            lemma_list_roster(p1, give, tt);
            let a = keep(a0, get);
            assert forall|i: int| 0 <= i < a.len() implies !give.contains(#[trigger] a[i]) by {
                assert(a0.contains(a[i]));
                let j = choose|j: int| 0 <= j < a0.len() && a0[j] == a[i];
                assert(!give.contains(a0[j]));
            }
            lemma_roster_concat(p1, a, give, tt);
        }
    }
    assert forall|t: int, k: int| 0 <= t < l1.teams@.len() && 0 <= k < l1.teams@[t].roster@.len()
        implies (#[trigger] l1.teams@[t].roster@[k]) < l1.players@.len()
            && l1.players@[l1.teams@[t].roster@[k] as int].team == Some(t as TeamId) by {
        assert(roster_ok(p1, l1.teams@[t].roster@, t as TeamId));
    }
    assert forall|t: int, k1: int, k2: int| 0 <= t < l1.teams@.len() && 0 <= k1 < k2 < l1.teams@[t].roster@.len()
        implies #[trigger] l1.teams@[t].roster@[k1] != #[trigger] l1.teams@[t].roster@[k2] by {
        assert(roster_ok(p1, l1.teams@[t].roster@, t as TeamId));
    }
}

/// Does the list hold the id?
fn holds_id(xs: &[u32], x: u32) -> (b: bool)
    ensures
        b == xs@.contains(x),
{
    let mut i: usize = 0;
    while i < xs.len()
        invariant
            i <= xs@.len(),
            forall|j: int| 0 <= j < i ==> xs@[j] != x,
        decreases xs@.len() - i,
    {
        if xs[i] == x {
            assert(xs@[i as int] == x);
            return true;
        }
        i = i + 1;
    }
    false
}

/// A roster without the listed players.
fn keep_roster(r: &Vec<PlayerId>, xs: &[PlayerId]) -> (v: Vec<PlayerId>)
    ensures
        v@ == keep(r@, xs@),
{
    let mut v: Vec<PlayerId> = Vec::new();
    let mut k: usize = 0;
    while k < r.len()
        invariant
            k <= r@.len(),
            v@ == keep(r@.take(k as int), xs@),
        decreases r@.len() - k,
    {
        proof {
            assert(r@.take(k as int + 1).drop_last() =~= r@.take(k as int));
            reveal_with_fuel(Seq::filter, 1);
        }
        let x = r[k];
        assert(r@.take(k as int + 1).last() == x);
        if !holds_id(xs, x) {
            v.push(x);
        }
        k = k + 1;
    }
    assert(r@.take(k as int) =~= r@);
    v
}

/// A roster that loses `out` and gains `inn`.
fn swapped_roster(r: &Vec<PlayerId>, out: &[PlayerId], inn: &[PlayerId]) -> (v: Vec<PlayerId>)
    ensures
        v@ == keep(r@, out@) + inn@,
{
    let mut v = keep_roster(r, out);
    let ghost base = v@;
    let mut i: usize = 0;
    while i < inn.len()
        invariant
            i <= inn@.len(),
            v@ == base + inn@.take(i as int),
        decreases inn@.len() - i,
    {
        v.push(inn[i]);
        i = i + 1;
        assert(v@ =~= base + inn@.take(i as int));
    }
    assert(inn@.take(i as int) =~= inn@);
    v
}

impl League {
    /// Are all the ids real players on team `t`?
    fn on_team_all(&self, ids: &[PlayerId], t: TeamId) -> (b: bool)
        requires
            self.wf(),
        ensures
            b == all_on_team(self.players@, ids@, t),
    {
        let mut i: usize = 0;
        while i < ids.len()
            invariant
                i <= ids@.len(),
                all_on_team(self.players@, ids@.take(i as int), t),
            decreases ids@.len() - i,
        {
            let x = ids[i] as usize;
            if x >= self.players.len() || self.players[x].team != Some(t) {
                assert(!((ids@[i as int] as int) < self.players@.len()) || self.players@[ids@[i as int] as int].team != Some(t));
                return false;
            }
            i = i + 1;
            assert forall|j: int| 0 <= j < i implies (#[trigger] ids@.take(i as int)[j] as int) < self.players@.len()
                && self.players@[ids@.take(i as int)[j] as int].team == Some(t) by {
                if j < i - 1 {
                    assert(ids@.take(i as int)[j] == ids@.take(i - 1)[j]);
                }
            }
        }
        assert(ids@.take(i as int) =~= ids@);
        true
    }

    /// Are all the pick ids records held by `t`?
    fn held_all(&self, ids: &[u32], t: TeamId) -> (b: bool)
        ensures
            b == all_held_by(self.pick_assets@, ids@, t),
    {
        let mut i: usize = 0;
        while i < ids.len()
            invariant
                i <= ids@.len(),
                all_held_by(self.pick_assets@, ids@.take(i as int), t),
            decreases ids@.len() - i,
        {
            let ok = match self.pick_by_id(ids[i]) {
                Some(pk) => pk.owner == t,
                None => false,
            };
            if !ok {
                assert(!(pick_with_id(self.pick_assets@, ids@[i as int]) matches Some(pk) && pk.owner == t));
                return false;
            }
            i = i + 1;
            assert forall|j: int| 0 <= j < i implies (#[trigger] pick_with_id(self.pick_assets@, ids@.take(i as int)[j])
                matches Some(pk) && pk.owner == t) by {
                if j < i - 1 {
                    assert(ids@.take(i as int)[j] == ids@.take(i - 1)[j]);
                }
            }
        }
        assert(ids@.take(i as int) =~= ids@);
        true
    }

    /// Carry out a trade — the user sends `give_players` and `give_picks` and
    /// receives `get_players` and `get_picks` from `other` — if each side owns
    /// what it sends, the trade is legal, and the CPU accepts (its verdict on
    /// the value of the package is passed in). Returns whether it happened.
    pub fn execute_trade_full(&mut self, other: TeamId, give_players: &[PlayerId], give_picks: &[u32],
        get_players: &[PlayerId], get_picks: &[u32], cpu_accepts: bool) -> (done: bool)
        requires
            old(self).wf(),
            trade_sums_fit(*old(self), other, give_players@, get_players@),
        ensures
            final(self).wf(),
            done == trade_goes_ahead(*old(self), other, give_players@, give_picks@, get_players@, get_picks@, cpu_accepts),
            !done ==> *final(self) == *old(self),
            done ==> {
                let user = old(self).user_team_id.unwrap();
                &&& final(self).players@.len() == old(self).players@.len()
                &&& forall|i: int| 0 <= i < old(self).players@.len() ==> #[trigger] final(self).players@[i]
                    == traded_player(old(self).players@[i], i as PlayerId, user, other, give_players@, get_players@)
                &&& final(self).teams@.len() == old(self).teams@.len()
                &&& forall|t: int| 0 <= t < old(self).teams@.len() ==> (#[trigger] final(self).teams@[t]) == (Team {
                    roster: final(self).teams@[t].roster, ..old(self).teams@[t] })
                    && final(self).teams@[t].roster@ == traded_roster(old(self).teams@[t].roster@, t, user, other,
                        give_players@, get_players@)
                &&& final(self).pick_assets@.len() == old(self).pick_assets@.len()
                &&& forall|k: int| 0 <= k < old(self).pick_assets@.len() ==> #[trigger] final(self).pick_assets@[k]
                    == traded_pick(old(self).pick_assets@, k, user, other, give_picks@, get_picks@)
                &&& *final(self) == (League { players: final(self).players, teams: final(self).teams,
                    pick_assets: final(self).pick_assets, ..*old(self) })
            },
            old(self).rosters_consistent() && distinct_ids(give_players@) && distinct_ids(get_players@)
                ==> final(self).rosters_consistent(),
    {
        let user = match self.user_team_id {
            Some(u) => u,
            None => return false,
        };
        if !self.on_team_all(give_players, user) || !self.on_team_all(get_players, other)
            || !self.held_all(give_picks, user) || !self.held_all(get_picks, other) {
            return false;
        }
        let verdict = self.trade_verdict(other, give_players, give_picks, get_players, get_picks);
        if verdict != TradeVerdict::Legal || !cpu_accepts {
            return false;
        }
        let ghost s0 = *self;
        // Move the players.
        let mut i: usize = 0;
        while i < give_players.len()
            invariant
                *self == (League { players: self.players, ..s0 }),
                s0.wf(),
                all_on_team(s0.players@, give_players@, user),
                i <= give_players@.len(),
                self.players@.len() == s0.players@.len(),
                forall|q: int| 0 <= q < s0.players@.len() ==> #[trigger] self.players@[q]
                    == (if give_players@.take(i as int).contains(q as PlayerId) {
                        Player { team: Some(other), ..s0.players@[q] } } else { s0.players@[q] }),
            decreases give_players@.len() - i,
        {
            let x = give_players[i];
            let ghost before = self.players@;
            self.players[x as usize].team = Some(other);
            i = i + 1;
            proof {
                assert forall|q: int| 0 <= q < s0.players@.len() implies #[trigger] self.players@[q]
                    == (if give_players@.take(i as int).contains(q as PlayerId) {
                        Player { team: Some(other), ..s0.players@[q] } } else { s0.players@[q] }) by {
                    let now = give_players@.take(i as int);
                    let prev = give_players@.take(i - 1);
                    assert(now =~= prev.push(x));
                    if q == x as int {
                        assert(now.contains(q as PlayerId)) by { assert(now[i - 1] == x); }
                    } else {
                        assert(self.players@[q] == before[q]);
                        if now.contains(q as PlayerId) {
                            let j = choose|j: int| 0 <= j < now.len() && now[j] == q as PlayerId;
                            assert(prev[j] == q as PlayerId);
                        }
                        if prev.contains(q as PlayerId) {
                            let j = choose|j: int| 0 <= j < prev.len() && prev[j] == q as PlayerId;
                            assert(now[j] == q as PlayerId);
                        }
                    }
                }
            }
        }
        assert(give_players@.take(i as int) =~= give_players@);
        let ghost s1 = *self;
        let mut j: usize = 0;
        while j < get_players.len()
            invariant
                *self == (League { players: self.players, ..s1 }),
                s0.wf(),
                all_on_team(s0.players@, get_players@, other),
                j <= get_players@.len(),
                self.players@.len() == s1.players@.len(),
                s1.players@.len() == s0.players@.len(),
                forall|q: int| 0 <= q < s1.players@.len() ==> #[trigger] self.players@[q]
                    == (if get_players@.take(j as int).contains(q as PlayerId) {
                        Player { team: Some(user), ..s1.players@[q] } } else { s1.players@[q] }),
            decreases get_players@.len() - j,
        {
            let x = get_players[j];
            let ghost before = self.players@;
            self.players[x as usize].team = Some(user);
            j = j + 1;
            proof {
                assert forall|q: int| 0 <= q < s1.players@.len() implies #[trigger] self.players@[q]
                    == (if get_players@.take(j as int).contains(q as PlayerId) {
                        Player { team: Some(user), ..s1.players@[q] } } else { s1.players@[q] }) by {
                    let now = get_players@.take(j as int);
                    let prev = get_players@.take(j - 1);
                    assert(now =~= prev.push(x));
                    if q == x as int {
                        assert(now.contains(q as PlayerId)) by { assert(now[j - 1] == x); }
                    } else {
                        assert(self.players@[q] == before[q]);
                        if now.contains(q as PlayerId) {
                            let k = choose|k: int| 0 <= k < now.len() && now[k] == q as PlayerId;
                            assert(prev[k] == q as PlayerId);
                        }
                        if prev.contains(q as PlayerId) {
                            let k = choose|k: int| 0 <= k < prev.len() && prev[k] == q as PlayerId;
                            assert(now[k] == q as PlayerId);
                        }
                    }
                }
            }
        }
        assert(get_players@.take(j as int) =~= get_players@);
        // Update the two rosters.
        let ghost s2 = *self;
        if (user as usize) < self.teams.len() {
            let r = swapped_roster(&self.teams[user as usize].roster, give_players, get_players);
            self.teams[user as usize].roster = r;
        }
        let ghost s3 = *self;
        if (other as usize) < self.teams.len() {
            let r = swapped_roster(&self.teams[other as usize].roster, get_players, give_players);
            self.teams[other as usize].roster = r;
        }
        // Reassign the picks.
        let ghost a0 = self.pick_assets@;
        let ghost s4 = *self;
        let mut k: usize = 0;
        while k < self.pick_assets.len()
            invariant
                *self == (League { pick_assets: self.pick_assets, ..s4 }),
                k <= self.pick_assets@.len(),
                self.pick_assets@.len() == a0.len(),
                forall|q: int| 0 <= q < k ==> #[trigger] self.pick_assets@[q]
                    == traded_pick(a0, q, user, other, give_picks@, get_picks@),
                forall|q: int| k <= q < a0.len() ==> #[trigger] self.pick_assets@[q] == a0[q],
            decreases self.pick_assets@.len() - k,
        {
            let pk = self.pick_assets[k];
            let mut first = true;
            let mut q: usize = 0;
            while q < k
                invariant
                    q <= k,
                    k < a0.len(),
                    self.pick_assets@.len() == a0.len(),
                    pk == a0[k as int],
                    forall|p: int| 0 <= p < k ==> #[trigger] self.pick_assets@[p]
                        == traded_pick(a0, p, user, other, give_picks@, get_picks@),
                    first == (forall|p: int| 0 <= p < q ==> (#[trigger] a0[p]).id != a0[k as int].id),
                decreases k - q,
            {
                assert(self.pick_assets@[q as int].id == a0[q as int].id);
                if self.pick_assets[q].id == pk.id {
                    first = false;
                }
                q = q + 1;
            }
            assert(first == first_with_id(a0, k as int));
            if first && holds_id(get_picks, pk.id) {
                self.pick_assets.set(k, OwnedPick { owner: user, ..pk });
            } else if first && holds_id(give_picks, pk.id) {
                self.pick_assets.set(k, OwnedPick { owner: other, ..pk });
            }
            k = k + 1;
        }
        proof {
            let user_t = user;
            assert forall|t: int| 0 <= t < s0.teams@.len() implies (#[trigger] self.teams@[t]) == (Team {
                roster: self.teams@[t].roster, ..s0.teams@[t] })
                && self.teams@[t].roster@ == traded_roster(s0.teams@[t].roster@, t, user, other,
                    give_players@, get_players@) by {
                assert(s2.teams@[t] == s0.teams@[t]);
                assert(self.teams@[t] == s4.teams@[t]);
                if t == user as int {
                    assert(s3.teams@[t].roster@ == keep(s0.teams@[t].roster@, give_players@) + get_players@);
                } else {
                    assert(s3.teams@[t] == s0.teams@[t]);
                }
                if t != other as int {
                    assert(s4.teams@[t] == s3.teams@[t]);
                }
            }
            assert forall|q: int| 0 <= q < s0.players@.len() implies #[trigger] self.players@[q]
                == traded_player(s0.players@[q], q as PlayerId, user, other, give_players@, get_players@) by {
                assert(s1.players@[q] == (if give_players@.contains(q as PlayerId) {
                        Player { team: Some(other), ..s0.players@[q] } } else { s0.players@[q] }));
            }
            assert forall|i: int| 0 <= i < self.players@.len() implies (#[trigger] self.players@[i]).id == i by {
                assert(s0.players@[i].id == i);
            }
            assert forall|t: int, q: int| 0 <= t < self.teams@.len() && 0 <= q < self.teams@[t].roster@.len()
                implies (#[trigger] self.teams@[t].roster@[q]) < self.players@.len() by {
                let r0 = s0.teams@[t].roster@;
                let x = self.teams@[t].roster@[q];
                let r1 = if t == user as int { keep(r0, give_players@) + get_players@ } else { r0 };
                assert(forall|z: int| 0 <= z < r0.len() ==> (#[trigger] r0[z]) < s0.players@.len());
                assert(forall|z: int| 0 <= z < r1.len() ==> (#[trigger] r1[z]) < s0.players@.len()) by {
                    if t == user as int {
                        assert forall|z: int| 0 <= z < r1.len() implies (#[trigger] r1[z]) < s0.players@.len() by {
                            let a = keep(r0, give_players@);
                            if z < a.len() {
                                assert(a.contains(a[z]));
                                lemma_keep_contains(r0, give_players@, a[z]);
                                assert(r1[z] == a[z]);
                            } else {
                                assert(r1[z] == get_players@[z - a.len()]);
                            }
                        }
                    }
                }
                if t == other as int {
                    let a = keep(r1, get_players@);
                    let r2 = a + give_players@;
                    if q < a.len() {
                        assert(a.contains(a[q]));
                        lemma_keep_contains(r1, get_players@, a[q]);
                        let z = choose|z: int| 0 <= z < r1.len() && r1[z] == a[q];
                        assert(r2[q] == a[q]);
                    } else {
                        assert(r2[q] == give_players@[q - a.len()]);
                    }
                }
            }
            if s0.rosters_consistent() && distinct_ids(give_players@) && distinct_ids(get_players@) {
                lemma_trade_consistent(s0, *self, user, other, give_players@, get_players@);
            }
        }
        true
    }

    /// Carry out a players-only trade (see `execute_trade_full`).
    pub fn execute_trade(&mut self, other: TeamId, give: &[PlayerId], get: &[PlayerId], cpu_accepts: bool) -> (done: bool)
        requires
            old(self).wf(),
            trade_sums_fit(*old(self), other, give@, get@),
        ensures
            final(self).wf(),
            done == trade_goes_ahead(*old(self), other, give@, Seq::empty(), get@, Seq::empty(), cpu_accepts),
            !done ==> *final(self) == *old(self),
            done ==> {
                let user = old(self).user_team_id.unwrap();
                &&& final(self).players@.len() == old(self).players@.len()
                &&& forall|i: int| 0 <= i < old(self).players@.len() ==> #[trigger] final(self).players@[i]
                    == traded_player(old(self).players@[i], i as PlayerId, user, other, give@, get@)
                &&& final(self).teams@.len() == old(self).teams@.len()
                &&& forall|t: int| 0 <= t < old(self).teams@.len() ==> (#[trigger] final(self).teams@[t]) == (Team {
                    roster: final(self).teams@[t].roster, ..old(self).teams@[t] })
                    && final(self).teams@[t].roster@ == traded_roster(old(self).teams@[t].roster@, t, user, other, give@, get@)
                &&& final(self).pick_assets@ == old(self).pick_assets@
                &&& *final(self) == (League { players: final(self).players, teams: final(self).teams,
                    pick_assets: final(self).pick_assets, ..*old(self) })
            },
            old(self).rosters_consistent() && distinct_ids(give@) && distinct_ids(get@)
                ==> final(self).rosters_consistent(),
    {
        let no_picks: Vec<u32> = Vec::new();
        assert(no_picks@ =~= Seq::<u32>::empty());
        let ghost s0 = *self;
        let done = self.execute_trade_full(other, give, no_picks.as_slice(), get, no_picks.as_slice(), cpu_accepts);
        proof {
            if done {
                assert(self.pick_assets@ =~= s0.pick_assets@) by {
                    assert forall|k: int| 0 <= k < s0.pick_assets@.len() implies self.pick_assets@[k] == s0.pick_assets@[k] by {
                        assert(!no_picks@.contains(s0.pick_assets@[k].id));
                    }
                }
            }
        }
        done
    }
}

} // verus!
