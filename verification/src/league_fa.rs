//! The offseason free-agency period: the pool of unsigned players, the
//! user's offers, the CPU teams' bids, signing the winners, and filling thin
//! CPU rosters at the end. (Which offer a free agent prefers is a real-valued
//! judgment made by the application layer; the library keeps the books.)

use vstd::prelude::*;
use crate::free_agency::{FaOffer, FreeAgency};
use crate::league::{market_salary, market_salary_of, League, Phase, FA_MAX_OFFERS, MAX_SALARY, MIN_SALARY, ROSTER_MAX, SALARY_CAP};
use crate::league_trade::roster_size;
use crate::order::{is_key_order, key_order};
use crate::player::{overall_of, Contract, Player};
use crate::types::{PlayerId, TeamId};
use crate::league_draft::{board_after, without};
use crate::player::salary_text;
use crate::team::Team;
use crate::league::PICK_YEARS;
use crate::league_offseason::season_started;
use crate::text::{decimal, decimal_string};

verus! {

/// The user's offers on file.
pub open spec fn user_offers(offers: Seq<(PlayerId, FaOffer)>, user: TeamId) -> Seq<(PlayerId, FaOffer)> {
    offers.filter(|e: (PlayerId, FaOffer)| e.1.team == user)
}

/// How many offers the user has out (none without a team or free agency).
pub open spec fn offer_count_of(l: League) -> int {
    match (l.user_team_id, l.free_agency) {
        (Some(u), Some(fa)) => user_offers(fa.offers@, u).len() as int,
        _ => 0,
    }
}

/// The ids of the unsigned players, in table order.
pub open spec fn unsigned_ids(players: Seq<Player>) -> Seq<PlayerId> {
    players.filter(|p: Player| p.team is None).map_values(|p: Player| p.id)
}

/// A player's overall, or `dflt` for an id that names nobody.
pub open spec fn ovr_or(players: Seq<Player>, pid: PlayerId, dflt: int) -> int {
    if (pid as int) < players.len() { overall_of(players[pid as int].ratings) } else { dflt }
}

/// Sort keys that put a better overall first (unknown ids last).
pub open spec fn pool_keys(players: Seq<Player>, pool: Seq<PlayerId>) -> Seq<u64> {
    pool.map_values(|pid: PlayerId| (255 - ovr_or(players, pid, 0)) as u64)
}

/// `sorted` is `pool` ordered best overall first, ties in pool order.
pub open spec fn sorted_by_overall(players: Seq<Player>, pool: Seq<PlayerId>, sorted: Seq<PlayerId>) -> bool {
    exists|order: Seq<usize>| #[trigger] is_key_order(pool_keys(players, pool), order)
        && sorted == order.map_values(|i: usize| pool[i as int])
}

/// Offers other than the user's offer to `pid`.
pub open spec fn without_user_offer(offers: Seq<(PlayerId, FaOffer)>, pid: PlayerId, user: TeamId)
    -> Seq<(PlayerId, FaOffer)> {
    offers.filter(|e: (PlayerId, FaOffer)| !(e.0 == pid && e.1.team == user))
}

/// Some offer on file is the given team's offer to the given player.
pub open spec fn has_offer(offers: Seq<(PlayerId, FaOffer)>, pid: PlayerId, team: TeamId) -> bool {
    exists|k: int| 0 <= k < offers.len() && (#[trigger] offers[k]).0 == pid && offers[k].1.team == team
}

/// The salary the user's offer is made at: held to the minimum and maximum.
pub open spec fn offer_salary(salary: u32) -> u32 {
    if salary < MIN_SALARY { MIN_SALARY } else if salary > MAX_SALARY { MAX_SALARY } else { salary }
}

/// The length of the user's offer: one to five years.
pub open spec fn offer_years(years: u8) -> u8 {
    if years < 1 { 1 } else if years > 5 { 5 } else { years }
}

/// Whether the user's offer is taken: a team is selected, the player is in
/// the pool, the roster has room, the (clamped) salary fits under the cap,
/// and either it replaces an earlier offer to him or fewer than six are out.
pub open spec fn offer_accepted(l: League, pid: PlayerId, salary: u32) -> bool {
    match (l.user_team_id, l.free_agency) {
        (Some(u), Some(fa)) => {
            &&& fa.pool@.contains(pid)
            &&& roster_size(l, u) < ROSTER_MAX
            &&& offer_salary(salary) <= SALARY_CAP - l.payroll_of(u)
            &&& (has_offer(fa.offers@, pid, u) || user_offers(fa.offers@, u).len() < FA_MAX_OFFERS)
        },
        _ => false,
    }
}

proof fn lemma_without_offer_count(o: Seq<(PlayerId, FaOffer)>, pid: PlayerId, u: TeamId)
    ensures
        user_offers(without_user_offer(o, pid, u), u).len() + (if has_offer(o, pid, u) { 1int } else { 0int })
            <= user_offers(o, u).len(),
    decreases o.len(),
{
    reveal_with_fuel(Seq::filter, 1);
    if o.len() > 0 {
        let d = o.drop_last();
        let e = o.last();
        lemma_without_offer_count(d, pid, u);
        let w = without_user_offer(d, pid, u);
        assert(without_user_offer(o, pid, u) == (if !(e.0 == pid && e.1.team == u) { w.push(e) } else { w }));
        assert(user_offers(o, u) == (if e.1.team == u { user_offers(d, u).push(e) } else { user_offers(d, u) }));
        if !(e.0 == pid && e.1.team == u) {
            assert(user_offers(w.push(e), u) == (if e.1.team == u { user_offers(w, u).push(e) } else { user_offers(w, u) })) by {
                assert(w.push(e).drop_last() =~= w);
            }
        }
        if has_offer(o, pid, u) && !has_offer(d, pid, u) {
            let k = choose|k: int| 0 <= k < o.len() && (#[trigger] o[k]).0 == pid && o[k].1.team == u;
            if k < d.len() {
                assert(d[k] == o[k]);
            }
        }
        if has_offer(d, pid, u) {
            let k = choose|k: int| 0 <= k < d.len() && (#[trigger] d[k]).0 == pid && d[k].1.team == u;
            assert(o[k] == d[k]);
        }
    }
}

/// The user never has more than six offers out: an accepted offer either
/// replaces one of his or needs fewer than six on file.
pub proof fn lemma_offer_cap(offers: Seq<(PlayerId, FaOffer)>, pid: PlayerId, u: TeamId, o: FaOffer)
    requires
        o.team == u,
        user_offers(offers, u).len() <= FA_MAX_OFFERS,
        has_offer(offers, pid, u) || user_offers(offers, u).len() < FA_MAX_OFFERS,
    ensures
        user_offers(without_user_offer(offers, pid, u).push((pid, o)), u).len() <= FA_MAX_OFFERS,
{
    reveal_with_fuel(Seq::filter, 1);
    lemma_without_offer_count(offers, pid, u);
    let w = without_user_offer(offers, pid, u);
    assert(w.push((pid, o)).drop_last() =~= w);
    assert(user_offers(w.push((pid, o)), u) == user_offers(w, u).push((pid, o)));
}

impl League {
    /// How many offers the user currently has out.
    pub fn fa_offer_count(&self) -> (n: usize)
        ensures
            n == offer_count_of(*self),
    {
        let user = match self.user_team_id {
            Some(u) => u,
            None => return 0,
        };
        let fa = match &self.free_agency {
            Some(fa) => fa,
            None => return 0,
        };
        let mut n: usize = 0;
        let mut k: usize = 0;
        while k < fa.offers.len()
            invariant
                k <= fa.offers@.len(),
                n == user_offers(fa.offers@.take(k as int), user).len(),
                n <= k,
            decreases fa.offers@.len() - k,
        {
            proof {
                assert(fa.offers@.take(k as int + 1).drop_last() =~= fa.offers@.take(k as int));
                reveal_with_fuel(Seq::filter, 1);
            }
            if fa.offers[k].1.team == user {
                n = n + 1;
            }
            k = k + 1;
        }
        assert(fa.offers@.take(k as int) =~= fa.offers@);
        n
    }

    /// Open the offseason free-agency period. The pool is every unsigned
    /// player, best overall first (ties by id).
    pub fn enter_free_agency(&mut self)
        requires
            old(self).wf(),
        ensures
            final(self).wf(),
            final(self).free_agency matches Some(fa) && fa.round == 1 && fa.offers@.len() == 0
                && fa.log@.len() == 0
                && sorted_by_overall(old(self).players@, unsigned_ids(old(self).players@), fa.pool@),
            *final(self) == (League { free_agency: final(self).free_agency, phase: Phase::FreeAgency, ..*old(self) }),
    {
        let mut pool: Vec<PlayerId> = Vec::new();
        let mut i: usize = 0;
        while i < self.players.len()
            invariant
                i <= self.players@.len(),
                pool@ == unsigned_ids(self.players@.take(i as int)),
            decreases self.players@.len() - i,
        {
            proof {
                assert(self.players@.take(i as int + 1).drop_last() =~= self.players@.take(i as int));
                reveal_with_fuel(Seq::filter, 1);
            }
            if self.players[i].team.is_none() {
                pool.push(self.players[i].id);
            }
            i = i + 1;
            proof {
                let f = |p: Player| p.team is None;
                let t = self.players@.take(i as int);
                assert(t.drop_last() =~= self.players@.take(i - 1));
                assert(t.filter(f) == (if f(t.last()) { t.drop_last().filter(f).push(t.last()) } else { t.drop_last().filter(f) }));
                assert(pool@ =~= unsigned_ids(t));
            }
        }
        assert(self.players@.take(i as int) =~= self.players@);
        let sorted = self.sorted_pool(&pool);
        let fa = FreeAgency { round: 1, pool: sorted, offers: Vec::new(), log: Vec::new() };
        self.free_agency = Some(fa);
        self.phase = Phase::FreeAgency;
    }

    /// A list of ids, best overall first (unknown ids last), ties in list
    /// order.
    pub fn sorted_pool(&self, pool: &Vec<PlayerId>) -> (v: Vec<PlayerId>)
        ensures
            sorted_by_overall(self.players@, pool@, v@),
    {
        let mut keys: Vec<u64> = Vec::new();
        let mut j: usize = 0;
        while j < pool.len()
            invariant
                j <= pool@.len(),
                keys@ == pool_keys(self.players@, pool@).take(j as int),
            decreases pool@.len() - j,
        {
            let pid = pool[j];
            let o: u8 = if (pid as usize) < self.players.len() { self.players[pid as usize].overall() } else { 0 };
            keys.push((255 - o) as u64);
            j = j + 1;
            assert(keys@ =~= pool_keys(self.players@, pool@).take(j as int));
        }
        assert(keys@ =~= pool_keys(self.players@, pool@));
        let order = key_order(&keys);
        let mut v: Vec<PlayerId> = Vec::new();
        let mut q: usize = 0;
        while q < order.len()
            invariant
                q <= order@.len(),
                is_key_order(keys@, order@),
                keys@.len() == pool@.len(),
                v@ == order@.take(q as int).map_values(|i: usize| pool@[i as int]),
            decreases order@.len() - q,
        {
            v.push(pool[order[q]]);
            q = q + 1;
            assert(v@ =~= order@.take(q as int).map_values(|i: usize| pool@[i as int]));
        }
        assert(order@.take(q as int) =~= order@);
        v
    }

    /// The user makes (or replaces) an offer to a free agent; the salary is
    /// held to the minimum and maximum and the length to one to five years.
    /// Returns false, changing nothing, when the offer is refused (see
    /// `offer_accepted`).
    pub fn fa_user_offer(&mut self, pid: PlayerId, salary: u32, years: u8) -> (ok: bool)
        requires
            old(self).wf(),
            old(self).user_team_id matches Some(u) ==> old(self).payroll_of(u) <= u32::MAX,
        ensures
            final(self).wf(),
            ok == offer_accepted(*old(self), pid, salary),
            !ok ==> *final(self) == *old(self),
            ok ==> {
                let u = old(self).user_team_id.unwrap();
                let fa0 = old(self).free_agency.unwrap();
                &&& final(self).free_agency matches Some(fa) && fa.round == fa0.round && fa.pool == fa0.pool
                    && fa.log == fa0.log
                    && fa.offers@ == without_user_offer(fa0.offers@, pid, u).push(
                        (pid, FaOffer { team: u, salary: offer_salary(salary), years: offer_years(years) }))
                &&& *final(self) == (League { free_agency: final(self).free_agency, ..*old(self) })
            },
            offer_count_of(*old(self)) <= FA_MAX_OFFERS ==> offer_count_of(*final(self)) <= FA_MAX_OFFERS,
    {
        let user = match self.user_team_id {
            Some(u) => u,
            None => return false,
        };
        let in_pool = match &self.free_agency {
            Some(fa) => {
                let mut found = false;
                let mut k: usize = 0;
                while k < fa.pool.len()
                    invariant
                        k <= fa.pool@.len(),
                        found == fa.pool@.take(k as int).contains(pid),
                    decreases fa.pool@.len() - k,
                {
                    proof {
                        let t = fa.pool@.take(k as int + 1);
                        assert(t.drop_last() =~= fa.pool@.take(k as int));
                        if t.contains(pid) && !fa.pool@.take(k as int).contains(pid) {
                            let j = choose|j: int| 0 <= j < t.len() && t[j] == pid;
                            assert(j == k);
                        }
                        if fa.pool@.take(k as int).contains(pid) {
                            let j = choose|j: int| 0 <= j < k && fa.pool@.take(k as int)[j] == pid;
                            assert(t[j] == pid);
                        }
                    }
                    if fa.pool[k] == pid {
                        assert(fa.pool@.take(k as int + 1)[k as int] == pid);
                        found = true;
                    }
                    k = k + 1;
                }
                assert(fa.pool@.take(k as int) =~= fa.pool@);
                found
            },
            None => false,
        };
        if !in_pool || self.roster_len(user) >= ROSTER_MAX {
            return false;
        }
        let s = if salary < MIN_SALARY { MIN_SALARY } else if salary > MAX_SALARY { MAX_SALARY } else { salary };
        if (s as i64) > self.team_cap_space(user) {
            return false;
        }
        let mut fa = match self.free_agency.take() {
            Some(fa) => fa,
            None => return false,
        };
        let ghost fa0 = fa;
        let mut replacing = false;
        let mut kept: Vec<(PlayerId, FaOffer)> = Vec::new();
        let mut k: usize = 0;
        while k < fa.offers.len()
            invariant
                k <= fa.offers@.len(),
                fa == fa0,
                kept@ == without_user_offer(fa.offers@.take(k as int), pid, user),
                replacing == has_offer(fa.offers@.take(k as int), pid, user),
            decreases fa.offers@.len() - k,
        {
            proof {
                let t = fa.offers@.take(k as int + 1);
                assert(t.drop_last() =~= fa.offers@.take(k as int));
                reveal_with_fuel(Seq::filter, 1);
                if has_offer(t, pid, user) && !has_offer(fa.offers@.take(k as int), pid, user) {
                    let j = choose|j: int| 0 <= j < t.len() && (#[trigger] t[j]).0 == pid && t[j].1.team == user;
                    assert(j == k);
                }
                if has_offer(fa.offers@.take(k as int), pid, user) {
                    let j = choose|j: int| 0 <= j < k && (#[trigger] fa.offers@.take(k as int)[j]).0 == pid
                        && fa.offers@.take(k as int)[j].1.team == user;
                    assert(t[j] == fa.offers@.take(k as int)[j]);
                }
            }
            let e = fa.offers[k];
            if e.0 == pid && e.1.team == user {
                assert(fa.offers@.take(k as int + 1)[k as int] == e);
                replacing = true;
            } else {
                kept.push(e);
            }
            k = k + 1;
        }
        assert(fa.offers@.take(k as int) =~= fa.offers@);
        let count = self.count_user_offers(&fa, user);
        if !replacing && count >= FA_MAX_OFFERS {
            self.free_agency = Some(fa);
            return false;
        }
        let y = if years < 1 { 1 } else if years > 5 { 5 } else { years };
        proof {
            if user_offers(fa.offers@, user).len() <= FA_MAX_OFFERS {
                lemma_offer_cap(fa.offers@, pid, user, FaOffer { team: user, salary: s, years: y });
            }
        }
        kept.push((pid, FaOffer { team: user, salary: s, years: y }));
        fa.offers = kept;
        self.free_agency = Some(fa);
        true
    }

    /// The user's offers on file in a free-agency state.
    fn count_user_offers(&self, fa: &FreeAgency, user: TeamId) -> (n: usize)
        ensures
            n == user_offers(fa.offers@, user).len(),
    {
        let mut n: usize = 0;
        let mut k: usize = 0;
        while k < fa.offers.len()
            invariant
                k <= fa.offers@.len(),
                n == user_offers(fa.offers@.take(k as int), user).len(),
                n <= k,
            decreases fa.offers@.len() - k,
        {
            proof {
                assert(fa.offers@.take(k as int + 1).drop_last() =~= fa.offers@.take(k as int));
                reveal_with_fuel(Seq::filter, 1);
            }
            if fa.offers[k].1.team == user {
                n = n + 1;
            }
            k = k + 1;
        }
        assert(fa.offers@.take(k as int) =~= fa.offers@);
        n
    }

    /// Withdraw the user's offer to a player.
    pub fn fa_clear_user_offer(&mut self, pid: PlayerId)
        ensures
            (old(self).user_team_id is None || old(self).free_agency is None) ==> *final(self) == *old(self),
            (old(self).user_team_id is Some && old(self).free_agency is Some) ==> {
                let u = old(self).user_team_id.unwrap();
                let fa0 = old(self).free_agency.unwrap();
                &&& final(self).free_agency matches Some(fa) && fa.round == fa0.round && fa.pool == fa0.pool
                    && fa.log == fa0.log
                    && fa.offers@ == without_user_offer(fa0.offers@, pid, u)
                &&& *final(self) == (League { free_agency: final(self).free_agency, ..*old(self) })
            },
    {
        let user = match self.user_team_id {
            Some(u) => u,
            None => return,
        };
        let mut fa = match self.free_agency.take() {
            Some(fa) => fa,
            None => return,
        };
        let mut kept: Vec<(PlayerId, FaOffer)> = Vec::new();
        let mut k: usize = 0;
        while k < fa.offers.len()
            invariant
                k <= fa.offers@.len(),
                kept@ == without_user_offer(fa.offers@.take(k as int), pid, user),
            decreases fa.offers@.len() - k,
        {
            proof {
                assert(fa.offers@.take(k as int + 1).drop_last() =~= fa.offers@.take(k as int));
                reveal_with_fuel(Seq::filter, 1);
            }
            let e = fa.offers[k];
            if !(e.0 == pid && e.1.team == user) {
                kept.push(e);
            }
            k = k + 1;
        }
        assert(fa.offers@.take(k as int) =~= fa.offers@);
        fa.offers = kept;
        self.free_agency = Some(fa);
    }
}

/// The contract length a CPU team offers, by the player's age.
pub open spec fn cpu_years(age: int) -> u8 {
    if age <= 27 { 4 } else if age <= 31 { 3 } else { 2 }
}

/// A player's age, or `dflt` for an id that names nobody.
pub open spec fn age_or(players: Seq<Player>, pid: PlayerId, dflt: int) -> int {
    if (pid as int) < players.len() { players[pid as int].age as int } else { dflt }
}

/// One CPU team's bids: walking the sorted pool from position `i`, with `sp`
/// of cap space left after `made` bids, it offers each player it has not bid
/// on yet his market salary when it can afford it, stopping after two.
pub open spec fn team_bids(players: Seq<Player>, offers: Seq<(PlayerId, FaOffer)>, t: TeamId, sp: int,
    made: int, pool: Seq<PlayerId>, i: int) -> Seq<(PlayerId, FaOffer)>
    decreases pool.len() - i,
{
    if i < 0 || i >= pool.len() || made >= 2 {
        offers
    } else {
        let pid = pool[i];
        let mkt = market_salary_of(ovr_or(players, pid, 50));
        if !has_offer(offers, pid, t) && mkt <= sp {
            team_bids(players, offers.push((pid, FaOffer { team: t, salary: mkt as u32,
                years: cpu_years(age_or(players, pid, 25)) })), t, sp - mkt, made + 1, pool, i + 1)
        } else {
            team_bids(players, offers, t, sp, made, pool, i + 1)
        }
    }
}

/// Every CPU team with roster room bids in team order, from team `t` on.
pub open spec fn all_bids(l: League, offers: Seq<(PlayerId, FaOffer)>, user: TeamId, pool: Seq<PlayerId>, t: int)
    -> Seq<(PlayerId, FaOffer)>
    decreases l.teams@.len() - t,
{
    if t < 0 || t >= l.teams@.len() {
        offers
    } else {
        let next = if t == user as int || ROSTER_MAX - l.teams@[t].roster@.len() <= 0 {
            offers
        } else {
            team_bids(l.players@, offers, t as TeamId, SALARY_CAP - l.payroll_of(t as TeamId), 0, pool, 0)
        };
        all_bids(l, next, user, pool, t + 1)
    }
}

/// Every team's payroll fits in 32 bits and every roster's length in a
/// signed 32-bit count.
pub open spec fn payrolls_fit(l: League) -> bool {
    &&& forall|t: int| 0 <= t < l.teams@.len() ==> #[trigger] l.payroll_of(t as TeamId) <= u32::MAX
    &&& forall|t: int| 0 <= t < l.teams@.len() ==> (#[trigger] l.teams@[t]).roster@.len() <= i32::MAX
}

/// Does the offer list hold the team's offer to the player?
fn offer_on_file(offers: &Vec<(PlayerId, FaOffer)>, pid: PlayerId, team: TeamId) -> (b: bool)
    ensures
        b == has_offer(offers@, pid, team),
{
    let mut k: usize = 0;
    while k < offers.len()
        invariant
            k <= offers@.len(),
            forall|j: int| 0 <= j < k ==> !((#[trigger] offers@[j]).0 == pid && offers@[j].1.team == team),
        decreases offers@.len() - k,
    {
        if offers[k].0 == pid && offers[k].1.team == team {
            assert(offers@[k as int].0 == pid && offers@[k as int].1.team == team);
            return true;
        }
        k = k + 1;
    }
    false
}

/// Room left on each team's roster and under its cap while a round of
/// signings is settled, indexed by team id.
#[derive(Debug, Clone)]
pub struct FaBudget {
    pub room: Vec<i64>,
    pub space: Vec<i64>,
}

impl FaBudget {
    /// Can the offering team still take this signing? (It needs a roster
    /// spot and the salary under its cap.)
    pub fn allows(&self, o: &FaOffer) -> (b: bool)
        requires
            (o.team as int) < self.room@.len(),
            (o.team as int) < self.space@.len(),
        ensures
            b == (self.room@[o.team as int] > 0 && o.salary <= self.space@[o.team as int]),
    {
        self.room[o.team as usize] > 0 && (o.salary as i64) <= self.space[o.team as usize]
    }

    /// Book a signing against the offering team.
    pub fn commit(&mut self, o: &FaOffer)
        requires
            (o.team as int) < old(self).room@.len(),
            (o.team as int) < old(self).space@.len(),
            old(self).room@[o.team as int] > i64::MIN,
            old(self).space@[o.team as int] - o.salary >= i64::MIN,
        ensures
            final(self).room@ == old(self).room@.update(o.team as int, (old(self).room@[o.team as int] - 1) as i64),
            final(self).space@ == old(self).space@.update(o.team as int, (old(self).space@[o.team as int] - o.salary) as i64),
    {
        let t = o.team as usize;
        let r = self.room[t] - 1;
        self.room.set(t, r);
        let s = self.space[t] - o.salary as i64;
        self.space.set(t, s);
    }
}

/// A free agent's leaning in a round: the offers he is weighing, in the
/// order he favours them.
#[derive(Debug, Clone)]
pub struct FaChoice {
    pub player: PlayerId,
    pub ranked: Vec<FaOffer>,
}

/// The choices as plain values: each free agent with his ranked offers.
pub open spec fn choices_view(choices: Seq<FaChoice>) -> Seq<(PlayerId, Seq<FaOffer>)> {
    choices.map_values(|c: FaChoice| (c.player, c.ranked@))
}

/// The offering team still has a roster spot and the salary fits under its
/// cap.
pub open spec fn offer_allowed(room: Seq<i64>, space: Seq<i64>, o: FaOffer) -> bool {
    &&& (o.team as int) < room.len()
    &&& (o.team as int) < space.len()
    &&& room[o.team as int] > 0
    &&& o.salary <= space[o.team as int]
}

/// The position of the first offer from `k` on that the budget allows
/// (`ranked.len()` when there is none).
pub open spec fn first_allowed(room: Seq<i64>, space: Seq<i64>, ranked: Seq<FaOffer>, k: int) -> int
    decreases ranked.len() - k,
{
    if k < 0 || k >= ranked.len() {
        ranked.len() as int
    } else if offer_allowed(room, space, ranked[k]) {
        k
    } else {
        first_allowed(room, space, ranked, k + 1)
    }
}

/// A round settled, free agent by free agent from the `i`-th: each one with
/// an offer the budget still allows signs the one of those he favours most;
/// each signing uses up a roster spot and its salary.
pub open spec fn settle_from(room: Seq<i64>, space: Seq<i64>, choices: Seq<(PlayerId, Seq<FaOffer>)>, i: int)
    -> Seq<(PlayerId, FaOffer)>
    decreases choices.len() - i,
{
    if i < 0 || i >= choices.len() {
        Seq::empty()
    } else {
        let c = choices[i];
        let r = c.1;
        let k = first_allowed(room, space, r, 0);
        if k < r.len() {
            let o = r[k];
            let t = o.team as int;
            seq![(c.0, o)] + settle_from(room.update(t, (room[t] - 1) as i64),
                space.update(t, (space[t] - o.salary) as i64), choices, i + 1)
        } else {
            settle_from(room, space, choices, i + 1)
        }
    }
}

/// The total salary of a team's signings in a run of signings.
pub open spec fn salary_signed(sg: Seq<(PlayerId, FaOffer)>, t: TeamId) -> int
    decreases sg.len(),
{
    if sg.len() == 0 {
        0
    } else {
        salary_signed(sg.drop_last(), t) + if sg.last().1.team == t { sg.last().1.salary as int } else { 0 }
    }
}

proof fn lemma_salary_signed_front(x: (PlayerId, FaOffer), rest: Seq<(PlayerId, FaOffer)>, t: TeamId)
    ensures
        salary_signed(seq![x] + rest, t) == salary_signed(rest, t) + if x.1.team == t { x.1.salary as int } else { 0 },
    decreases rest.len(),
{
    if rest.len() == 0 {
        assert(seq![x] + rest =~= seq![x]);
        assert(seq![x].drop_last() =~= Seq::<(PlayerId, FaOffer)>::empty());
        assert(seq![x].last() == x);
        assert(salary_signed(Seq::<(PlayerId, FaOffer)>::empty(), t) == 0);
    } else {
        assert((seq![x] + rest).drop_last() =~= seq![x] + rest.drop_last());
        assert((seq![x] + rest).last() == rest.last());
        lemma_salary_signed_front(x, rest.drop_last(), t);
    }
}

/// A settled round stays within every team's budget: no team signs more
/// players than it had roster spots, nor more salary than it had cap space.
pub proof fn lemma_settle_within_budget(room: Seq<i64>, space: Seq<i64>, choices: Seq<(PlayerId, Seq<FaOffer>)>, i: int, t: TeamId)
    requires
        (t as int) < room.len(),
        (t as int) < space.len(),
    ensures
        signed_by(settle_from(room, space, choices, i), t).len()
            <= (if room[t as int] > 0 { room[t as int] as int } else { 0 }),
        salary_signed(settle_from(room, space, choices, i), t)
            <= (if space[t as int] > 0 { space[t as int] as int } else { 0 }),
    decreases choices.len() - i,
{
    if 0 <= i < choices.len() {
        let c = choices[i];
        let r = c.1;
        let k = first_allowed(room, space, r, 0);
        if k < r.len() {
            let o = r[k];
            let u = o.team as int;
            let room1 = room.update(u, (room[u] - 1) as i64);
            let space1 = space.update(u, (space[u] - o.salary) as i64);
            lemma_first_allowed(room, space, r, 0);
            lemma_settle_within_budget(room1, space1, choices, i + 1, t);
            let rest = settle_from(room1, space1, choices, i + 1);
            let x = (c.0, o);
            lemma_signed_by_concat(seq![x], rest, t);
            lemma_salary_signed_front(x, rest, t);
            assert(signed_by(seq![x], t) =~= (if o.team == t { seq![c.0] } else { Seq::empty() })) by {
                assert(seq![x].drop_last() =~= Seq::<(PlayerId, FaOffer)>::empty());
                assert(seq![x].last() == x);
                assert(signed_by(Seq::<(PlayerId, FaOffer)>::empty(), t) == Seq::<PlayerId>::empty());
                assert(Seq::<PlayerId>::empty() + seq![c.0] =~= seq![c.0]);
                assert(Seq::<PlayerId>::empty() + Seq::<PlayerId>::empty() =~= Seq::<PlayerId>::empty());
            }
        } else {
            lemma_settle_within_budget(room, space, choices, i + 1, t);
        }
    }
}

/// A round of free agency settled against the league's budget never takes a
/// roster past fifteen players nor a payroll past the cap (a team already
/// over either limit signs no one): each team gains at most its open roster
/// spots and at most its cap space in salary.
pub proof fn lemma_round_within_limits(l: League, b: FaBudget, choices: Seq<(PlayerId, Seq<FaOffer>)>, t: TeamId)
    requires
        (t as int) < l.teams@.len(),
        b.room@.len() == l.teams@.len(),
        b.space@.len() == l.teams@.len(),
        forall|u: int| 0 <= u < l.teams@.len() ==> #[trigger] b.room@[u] == ROSTER_MAX - l.teams@[u].roster@.len(),
        forall|u: int| 0 <= u < l.teams@.len() ==> #[trigger] b.space@[u] == SALARY_CAP - l.payroll_of(u as TeamId),
    ensures
        ({
            let sg = settle_from(b.room@, b.space@, choices, 0);
            let n = l.teams@[t as int].roster@.len() as int;
            let pay = l.payroll_of(t);
            &&& n + signed_by(sg, t).len() <= (if n < ROSTER_MAX { ROSTER_MAX as int } else { n })
            &&& pay + salary_signed(sg, t) <= (if pay < SALARY_CAP { SALARY_CAP as int } else { pay })
        }),
{
    lemma_settle_within_budget(b.room@, b.space@, choices, 0, t);
    assert(b.room@[t as int] == ROSTER_MAX - l.teams@[t as int].roster@.len());
    assert(b.space@[t as int] == SALARY_CAP - l.payroll_of(t));
}

proof fn lemma_first_allowed(room: Seq<i64>, space: Seq<i64>, ranked: Seq<FaOffer>, k: int)
    requires
        0 <= k,
    ensures
        k <= first_allowed(room, space, ranked, k) <= ranked.len() || k > ranked.len(),
        first_allowed(room, space, ranked, k) < ranked.len()
            ==> offer_allowed(room, space, ranked[first_allowed(room, space, ranked, k)]),
        forall|j: int| k <= j < first_allowed(room, space, ranked, k) && j < ranked.len()
            ==> !offer_allowed(room, space, #[trigger] ranked[j]),
    decreases ranked.len() - k,
{
    if k < ranked.len() && !offer_allowed(room, space, ranked[k]) {
        lemma_first_allowed(room, space, ranked, k + 1);
    }
}

impl FaBudget {
    /// Settle a round: each free agent, in turn, signs the offer he favours
    /// most among those his suitors can still afford (a roster spot and the
    /// salary under the cap), if there is one; each signing is booked against
    /// the budget. Returns the signings in order.
    pub fn settle(self, choices: &Vec<FaChoice>) -> (signed: Vec<(PlayerId, FaOffer)>)
        ensures
            signed@ == settle_from(self.room@, self.space@, choices_view(choices@), 0),
    {
        let ghost cv = choices_view(choices@);
        let ghost target = settle_from(self.room@, self.space@, cv, 0);
        let mut budget = self;
        let mut signed: Vec<(PlayerId, FaOffer)> = Vec::new();
        let mut i: usize = 0;
        while i < choices.len()
            invariant
                i <= choices@.len(),
                cv == choices_view(choices@),
                signed@ + settle_from(budget.room@, budget.space@, cv, i as int) == target,
            decreases choices@.len() - i,
        {
            let c = &choices[i];
            let ghost r = c.ranked@;
            assert(cv[i as int] == (c.player, r));
            let mut k: usize = 0;
            while k < c.ranked.len() && !((c.ranked[k].team as usize) < budget.room.len()
                && (c.ranked[k].team as usize) < budget.space.len() && budget.allows(&c.ranked[k]))
                invariant
                    r == c.ranked@,
                    k <= r.len(),
                    first_allowed(budget.room@, budget.space@, r, 0) == first_allowed(budget.room@, budget.space@, r, k as int),
                decreases r.len() - k,
            {
                k = k + 1;
            }
            let ghost room0 = budget.room@;
            let ghost space0 = budget.space@;
            if k < c.ranked.len() {
                let o = c.ranked[k];
                proof {
                    assert(first_allowed(room0, space0, r, k as int) == k);
                    assert(signed@.push((c.player, o)) + settle_from(
                        room0.update(o.team as int, (room0[o.team as int] - 1) as i64),
                        space0.update(o.team as int, (space0[o.team as int] - o.salary) as i64), cv, i + 1)
                        =~= signed@ + settle_from(room0, space0, cv, i as int));
                }
                budget.commit(&o);
                signed.push((c.player, o));
            } else {
                proof {
                    if k < r.len() {
                        assert(first_allowed(room0, space0, r, k as int) == k);
                    }
                }
            }
            i = i + 1;
        }
        signed
    }
}

/// The signings name distinct players, each of them unsigned, in a league
/// whose rosters are consistent.
pub open spec fn signs_free_agents(l: League, sg: Seq<(PlayerId, FaOffer)>) -> bool {
    &&& l.rosters_consistent()
    &&& crate::league_trade::distinct_ids(signing_ids(sg))
    &&& forall|i: int| 0 <= i < sg.len() ==> (#[trigger] sg[i]).0 < l.players@.len()
        && l.players@[sg[i].0 as int].team is None
}

/// Signing one unsigned player to a team (and adding him to its roster, if
/// the team exists) keeps the rosters consistent.
proof fn lemma_sign_one_consistent(l0: League, l1: League, pid: PlayerId, t: TeamId)
    requires
        l0.rosters_consistent(),
        (pid as int) < l0.players@.len(),
        l0.players@[pid as int].team is None,
        l1.players@.len() == l0.players@.len(),
        forall|i: int| 0 <= i < l0.players@.len() && i != pid as int ==> #[trigger] l1.players@[i] == l0.players@[i],
        l1.players@[pid as int].team == Some(t),
        l1.teams@.len() == l0.teams@.len(),
        forall|u: int| 0 <= u < l0.teams@.len() && u != t as int ==> (#[trigger] l1.teams@[u]).roster@ == l0.teams@[u].roster@,
        (t as int) < l0.teams@.len() ==> l1.teams@[t as int].roster@ == l0.teams@[t as int].roster@.push(pid),
    ensures
        l1.rosters_consistent(),
{
    assert forall|u: int, q: int| 0 <= u < l1.teams@.len() && 0 <= q < l1.teams@[u].roster@.len()
        implies (#[trigger] l1.teams@[u].roster@[q]) < l1.players@.len()
            && l1.players@[l1.teams@[u].roster@[q] as int].team == Some(u as TeamId) by {
        if q < l0.teams@[u].roster@.len() {
            let y = l0.teams@[u].roster@[q];
            assert(l1.teams@[u].roster@[q] == y);
            assert(l0.players@[y as int].team == Some(u as TeamId));
        }
    }
    assert forall|u: int, q1: int, q2: int| 0 <= u < l1.teams@.len() && 0 <= q1 < q2 < l1.teams@[u].roster@.len()
        implies #[trigger] l1.teams@[u].roster@[q1] != #[trigger] l1.teams@[u].roster@[q2] by {
        let r0 = l0.teams@[u].roster@;
        if q2 < r0.len() {
            assert(r0[q1] != r0[q2]);
        } else {
            assert(l0.players@[r0[q1] as int].team == Some(u as TeamId));
        }
    }
}

proof fn lemma_signings_untouched(players: Seq<Player>, sg: Seq<(PlayerId, FaOffer)>, x: PlayerId)
    requires
        (x as int) < players.len(),
        !signing_ids(sg).contains(x),
    ensures
        players_after_signings(players, sg)[x as int] == players[x as int],
    decreases sg.len(),
{
    if sg.len() > 0 {
        assert(!signing_ids(sg.drop_last()).contains(x)) by {
            if signing_ids(sg.drop_last()).contains(x) {
                let j = choose|j: int| 0 <= j < sg.drop_last().len() && signing_ids(sg.drop_last())[j] == x;
                assert(signing_ids(sg)[j] == x);
            }
        }
        lemma_signings_untouched(players, sg.drop_last(), x);
        lemma_signings_len(players, sg.drop_last());
        assert(signing_ids(sg)[sg.len() - 1] == sg.last().0);
    }
}

/// The player table after a run of signings, applied in order.
pub open spec fn players_after_signings(players: Seq<Player>, signings: Seq<(PlayerId, FaOffer)>) -> Seq<Player>
    decreases signings.len(),
{
    if signings.len() == 0 {
        players
    } else {
        let before = players_after_signings(players, signings.drop_last());
        let (pid, o) = signings.last();
        if (pid as int) < before.len() {
            before.update(pid as int, Player { team: Some(o.team),
                contract: Contract { salary: o.salary, years: o.years }, ..before[pid as int] })
        } else {
            before
        }
    }
}

/// The players a team signed in a run of signings, in order.
pub open spec fn signed_by(signings: Seq<(PlayerId, FaOffer)>, t: TeamId) -> Seq<PlayerId>
    decreases signings.len(),
{
    if signings.len() == 0 {
        Seq::empty()
    } else {
        signed_by(signings.drop_last(), t) + if signings.last().1.team == t {
            seq![signings.last().0]
        } else {
            Seq::empty()
        }
    }
}

/// A team's abbreviation, empty for an unknown team.
pub open spec fn team_abbrev(teams: Seq<Team>, t: TeamId) -> Seq<char> {
    if (t as int) < teams.len() { teams[t as int].abbrev@ } else { Seq::empty() }
}

/// The log line of a signing, e.g. "Ann Bell → BOS ($12.0M, 3yr)".
pub open spec fn signing_line(players: Seq<Player>, teams: Seq<Team>, pid: PlayerId, o: FaOffer) -> Seq<char> {
    players[pid as int].name@ + " \u{2192} "@ + team_abbrev(teams, o.team) + " ("@ + salary_text(o.salary)
        + ", "@ + decimal(o.years as nat) + "yr)"@
}

impl League {
    /// The free-agent pool, best overall first (ties in pool order).
    pub fn fa_pool_by_overall(&self) -> (v: Vec<PlayerId>)
        requires
            self.free_agency is Some,
        ensures
            sorted_by_overall(self.players@, self.free_agency.unwrap().pool@, v@),
    {
        match &self.free_agency {
            Some(fa) => self.sorted_pool(&fa.pool),
            None => Vec::new(),
        }
    }

    /// The round's offers: those on file, then each CPU team's bids (see
    /// `all_bids`) over the given sorted pool.
    pub fn fa_cpu_offers(&self, pool: &Vec<PlayerId>) -> (v: Vec<(PlayerId, FaOffer)>)
        requires
            self.wf(),
            self.user_team_id is Some,
            self.free_agency is Some,
            payrolls_fit(*self),
        ensures
            v@ == all_bids(*self, self.free_agency.unwrap().offers@, self.user_team_id.unwrap(), pool@, 0),
            forall|k: int| 0 <= k < v@.len() && !self.free_agency.unwrap().offers@.contains(#[trigger] v@[k]) ==> {
                let age = age_or(self.players@, v@[k].0, 25);
                &&& v@[k].1.team != self.user_team_id.unwrap()
                &&& v@[k].1.salary == market_salary_of(ovr_or(self.players@, v@[k].0, 50))
                &&& v@[k].1.years == (if age <= 27 { 4u8 } else if age <= 31 { 3u8 } else { 2u8 })
            },
    {
        proof {
            lemma_cpu_bid_terms(*self, self.free_agency.unwrap().offers@, self.user_team_id.unwrap(), pool@);
        }
        let user = match self.user_team_id {
            Some(u) => u,
            None => return Vec::new(),
        };
        let fa = match &self.free_agency {
            Some(fa) => fa,
            None => return Vec::new(),
        };
        let ghost target = all_bids(*self, fa.offers@, user, pool@, 0);
        let mut offers: Vec<(PlayerId, FaOffer)> = Vec::new();
        let mut k: usize = 0;
        while k < fa.offers.len()
            invariant
                k <= fa.offers@.len(),
                offers@ == fa.offers@.take(k as int),
            decreases fa.offers@.len() - k,
        {
            offers.push(fa.offers[k]);
            k = k + 1;
            assert(offers@ =~= fa.offers@.take(k as int));
        }
        assert(fa.offers@.take(k as int) =~= fa.offers@);
        let mut ti: usize = 0;
        while ti < self.teams.len()
            invariant
                self.wf(),
                payrolls_fit(*self),
                ti <= self.teams@.len(),
                all_bids(*self, offers@, user, pool@, ti as int) == target,
            decreases self.teams@.len() - ti,
        {
            let t = ti as TeamId;
            assert(self.teams@[ti as int].roster@.len() <= i32::MAX);
            let room = ROSTER_MAX as i64 - self.teams[ti].roster.len() as i64;
            if t != user && room > 0 {
                assert(self.payroll_of(t) <= u32::MAX);
                let mut sp: i64 = self.team_cap_space(t);
                let ghost team_target = team_bids(self.players@, offers@, t, sp as int, 0, pool@, 0);
                let mut made: u32 = 0;
                let mut i: usize = 0;
                while i < pool.len() && made < 2
                    invariant
                        i <= pool@.len(),
                        made <= 2,

                        sp >= -(u32::MAX as int),
                        team_bids(self.players@, offers@, t, sp as int, made as int, pool@, i as int) == team_target,
                    decreases pool@.len() - i,
                {
                    let pid = pool[i];
                    let o: u8 = if (pid as usize) < self.players.len() { self.players[pid as usize].overall() } else { 50 };
                    let mkt = market_salary(o) as i64;
                    if !offer_on_file(&offers, pid, t) && mkt <= sp {
                        let age: u8 = if (pid as usize) < self.players.len() { self.players[pid as usize].age } else { 25 };
                        let years: u8 = if age <= 27 { 4 } else if age <= 31 { 3 } else { 2 };
                        offers.push((pid, FaOffer { team: t, salary: mkt as u32, years }));
                        sp = sp - mkt;
                        made = made + 1;
                    }
                    i = i + 1;
                }
                assert(offers@ == team_target);
            }
            ti = ti + 1;
        }
        offers
    }

    /// Each team's roster room and cap space, indexed by team id.
    pub fn fa_budget(&self) -> (b: FaBudget)
        requires
            self.wf(),
            payrolls_fit(*self),
        ensures
            b.room@.len() == self.teams@.len(),
            b.space@.len() == self.teams@.len(),
            forall|t: int| 0 <= t < self.teams@.len() ==> #[trigger] b.room@[t] == ROSTER_MAX - self.teams@[t].roster@.len(),
            forall|t: int| 0 <= t < self.teams@.len() ==> #[trigger] b.space@[t] == SALARY_CAP - self.payroll_of(t as TeamId),
    {
        let mut room: Vec<i64> = Vec::new();
        let mut space: Vec<i64> = Vec::new();
        let mut t: usize = 0;
        while t < self.teams.len()
            invariant
                self.wf(),
                payrolls_fit(*self),
                t <= self.teams@.len(),
                room@.len() == t,
                space@.len() == t,
                forall|j: int| 0 <= j < t ==> #[trigger] room@[j] == ROSTER_MAX - self.teams@[j].roster@.len(),
                forall|j: int| 0 <= j < t ==> #[trigger] space@[j] == SALARY_CAP - self.payroll_of(j as TeamId),
            decreases self.teams@.len() - t,
        {
            assert(self.teams@[t as int].roster@.len() <= i32::MAX);
            room.push(ROSTER_MAX as i64 - self.teams[t].roster.len() as i64);
            assert(self.payroll_of(t as TeamId) <= u32::MAX);
            space.push(self.team_cap_space(t as TeamId));
            t = t + 1;
        }
        FaBudget { room, space }
    }
}

impl League {
    /// The log line of a signing.
    fn signing_text(&self, pid: PlayerId, o: FaOffer) -> (s: String)
        requires
            (pid as int) < self.players@.len(),
        ensures
            s@ == signing_line(self.players@, self.teams@, pid, o),
    {
        let mut s = String::from_str(self.players[pid as usize].name.as_str());
        s.append(" \u{2192} ");
        if (o.team as usize) < self.teams.len() {
            s.append(self.teams[o.team as usize].abbrev.as_str());
        }
        s.append(" (");
        let money = Contract { salary: o.salary, years: o.years }.salary_str();
        s.append(money.as_str());
        s.append(", ");
        let y = decimal_string(o.years as u32);
        s.append(y.as_str());
        s.append("yr)");
        s
    }

    /// Sign each player to his team on the offered contract, in order, and
    /// add him to that team's roster.
    fn sign_players(&mut self, signings: &Vec<(PlayerId, FaOffer)>)
        requires
            old(self).wf(),
            forall|i: int| 0 <= i < signings@.len() ==> (#[trigger] signings@[i]).0 < old(self).players@.len(),
        ensures
            final(self).wf(),
            final(self).players@ == players_after_signings(old(self).players@, signings@),
            final(self).teams@.len() == old(self).teams@.len(),
            forall|t: int| 0 <= t < old(self).teams@.len() ==> (#[trigger] final(self).teams@[t]) == (Team {
                roster: final(self).teams@[t].roster, ..old(self).teams@[t] })
                && final(self).teams@[t].roster@ == old(self).teams@[t].roster@ + signed_by(signings@, t as TeamId),
            *final(self) == (League { players: final(self).players, teams: final(self).teams, ..*old(self) }),
            signs_free_agents(*old(self), signings@) ==> final(self).rosters_consistent(),
    {
        let ghost s0 = *self;
        let ghost sg = signings@;
        let ghost keep = signs_free_agents(s0, sg);
        // The signings, in order.
        let mut k: usize = 0;
        while k < signings.len()
            invariant
                k <= sg.len(),
                sg == signings@,
                s0.wf(),
                forall|q: int| 0 <= q < sg.len() ==> (#[trigger] sg[q]).0 < s0.players@.len(),
                *self == (League { players: self.players, teams: self.teams, ..s0 }),
                self.players@ == players_after_signings(s0.players@, sg.take(k as int)),
                self.teams@.len() == s0.teams@.len(),
                forall|t: int| 0 <= t < s0.teams@.len() ==> (#[trigger] self.teams@[t]) == (Team {
                    roster: self.teams@[t].roster, ..s0.teams@[t] })
                    && self.teams@[t].roster@ == s0.teams@[t].roster@ + signed_by(sg.take(k as int), t as TeamId),
                keep == signs_free_agents(s0, sg),
                keep ==> self.rosters_consistent(),
            decreases sg.len() - k,
        {
            let (pid, o) = signings[k];
            let ghost before = *self;
            proof {
                if keep {
                    assert(!signing_ids(sg.take(k as int)).contains(pid)) by {
                        if signing_ids(sg.take(k as int)).contains(pid) {
                            let j = choose|j: int| 0 <= j < k && signing_ids(sg.take(k as int))[j] == pid;
                            assert(signing_ids(sg)[j] == signing_ids(sg)[k as int]);
                        }
                    }
                    lemma_signings_untouched(s0.players@, sg.take(k as int), pid);
                    assert(self.players@[pid as int].team is None);
                }
            }
            proof {
                assert(sg.take(k as int + 1).drop_last() =~= sg.take(k as int));
                assert(sg.take(k as int + 1).last() == sg[k as int]);
                lemma_signings_len(s0.players@, sg.take(k as int));
            }
            self.players[pid as usize].team = Some(o.team);
            self.players[pid as usize].contract = Contract { salary: o.salary, years: o.years };
            if (o.team as usize) < self.teams.len() {
                self.teams[o.team as usize].roster.push(pid);
            }
            k = k + 1;
            proof {
                if keep {
                    lemma_sign_one_consistent(before, *self, pid, o.team);
                }
                assert(self.players@ =~= players_after_signings(s0.players@, sg.take(k as int)));
                assert forall|t: int| 0 <= t < s0.teams@.len() implies (#[trigger] self.teams@[t]) == (Team {
                    roster: self.teams@[t].roster, ..s0.teams@[t] })
                    && self.teams@[t].roster@ == s0.teams@[t].roster@ + signed_by(sg.take(k as int), t as TeamId) by {
                    assert(before.teams@[t] == (Team { roster: before.teams@[t].roster, ..s0.teams@[t] }));
                    assert(self.teams@[t].roster@ =~= s0.teams@[t].roster@ + signed_by(sg.take(k as int), t as TeamId));
                }
            }
        }
        assert(sg.take(k as int) =~= sg);
        proof {
            lemma_signings_len(s0.players@, sg);
            assert forall|i: int| 0 <= i < self.players@.len() implies (#[trigger] self.players@[i]).id == i by {
                lemma_signings_keep_ids(s0.players@, sg, i);
            }
            assert forall|t: int, q: int| 0 <= t < self.teams@.len() && 0 <= q < self.teams@[t].roster@.len()
                implies (#[trigger] self.teams@[t].roster@[q]) < self.players@.len() by {
                let r0 = s0.teams@[t].roster@;
                if q < r0.len() {
                    assert(self.teams@[t].roster@[q] == r0[q]);
                } else {
                    lemma_signed_by_real(sg, t as TeamId, s0.players@.len() as int);
                    assert(self.teams@[t].roster@[q] == signed_by(sg, t as TeamId)[q - r0.len()]);
                }
            }
        }
    }

    /// Settle a round of free agency with the signings decided for it: each
    /// player joins his team on the offered contract, the signed players
    /// leave the pool, the offers are cleared, the round advances, and the
    /// log lists the signings.
    pub fn apply_fa_signings(&mut self, signings: &Vec<(PlayerId, FaOffer)>)
        requires
            old(self).wf(),
            old(self).free_agency matches Some(fa) && fa.round < u32::MAX,
            forall|i: int| 0 <= i < signings@.len() ==> (#[trigger] signings@[i]).0 < old(self).players@.len(),
        ensures
            final(self).wf(),
            final(self).players@ == players_after_signings(old(self).players@, signings@),
            final(self).teams@.len() == old(self).teams@.len(),
            forall|t: int| 0 <= t < old(self).teams@.len() ==> (#[trigger] final(self).teams@[t]) == (Team {
                roster: final(self).teams@[t].roster, ..old(self).teams@[t] })
                && final(self).teams@[t].roster@ == old(self).teams@[t].roster@ + signed_by(signings@, t as TeamId),
            ({
                let fa0 = old(self).free_agency.unwrap();
                &&& final(self).free_agency matches Some(fa)
                &&& final(self).free_agency.unwrap().round == fa0.round + 1
                &&& final(self).free_agency.unwrap().pool@ == board_after(fa0.pool@, signings@.map_values(|e: (PlayerId, FaOffer)| e.0))
                &&& final(self).free_agency.unwrap().offers@.len() == 0
                &&& final(self).free_agency.unwrap().log@.len() == signings@.len()
                &&& forall|i: int| 0 <= i < signings@.len() ==> (#[trigger] final(self).free_agency.unwrap().log@[i])@
                    == signing_line(old(self).players@, old(self).teams@, signings@[i].0, signings@[i].1)
            }),
            *final(self) == (League { players: final(self).players, teams: final(self).teams,
                free_agency: final(self).free_agency, ..*old(self) }),
            signs_free_agents(*old(self), signings@) ==> final(self).rosters_consistent(),
    {
        let ghost s0 = *self;
        let ghost sg = signings@;
        // The log, before anything moves.
        let mut log: Vec<String> = Vec::new();
        let mut i: usize = 0;
        while i < signings.len()
            invariant
                i <= sg.len(),
                sg == signings@,
                forall|q: int| 0 <= q < sg.len() ==> (#[trigger] sg[q]).0 < self.players@.len(),
                log@.len() == i,
                forall|q: int| 0 <= q < i ==> (#[trigger] log@[q])@ == signing_line(self.players@, self.teams@, sg[q].0, sg[q].1),
            decreases sg.len() - i,
        {
            let line = self.signing_text(signings[i].0, signings[i].1);
            log.push(line);
            i = i + 1;
        }
        self.sign_players(signings);
        // The pool, the offers and the round.
        let mut fa = match self.free_agency.take() {
            Some(fa) => fa,
            None => return,
        };
        let ghost ids = sg.map_values(|e: (PlayerId, FaOffer)| e.0);
        let ghost pool0 = fa.pool@;
        let ghost round0 = fa.round;
        assert(fa.round < u32::MAX);
        let mut j: usize = 0;
        while j < signings.len()
            invariant
                j <= sg.len(),
                fa.round == round0,
                round0 < u32::MAX,
                sg == signings@,
                ids == sg.map_values(|e: (PlayerId, FaOffer)| e.0),
                fa.pool@ == board_after(pool0, ids.take(j as int)),
            decreases sg.len() - j,
        {
            let pid = signings[j].0;
            let mut kept: Vec<PlayerId> = Vec::new();
            let mut q: usize = 0;
            while q < fa.pool.len()
                invariant
                    q <= fa.pool@.len(),
                    kept@ == without(fa.pool@.take(q as int), pid),
                decreases fa.pool@.len() - q,
            {
                proof {
                    assert(fa.pool@.take(q as int + 1).drop_last() =~= fa.pool@.take(q as int));
                    reveal_with_fuel(Seq::filter, 1);
                }
                let x = fa.pool[q];
                assert(fa.pool@.take(q as int + 1).last() == x);
                if x != pid {
                    kept.push(x);
                }
                q = q + 1;
            }
            assert(fa.pool@.take(q as int) =~= fa.pool@);
            fa.pool = kept;
            j = j + 1;
            proof {
                assert(ids.take(j as int).drop_last() =~= ids.take(j - 1));
                assert(ids.take(j as int).last() == pid);
            }
        }
        assert(ids.take(j as int) =~= ids);
        fa.offers = Vec::new();
        fa.round = fa.round + 1;
        fa.log = log;
        self.free_agency = Some(fa);
    }
}

proof fn lemma_signings_len(players: Seq<Player>, sg: Seq<(PlayerId, FaOffer)>)
    ensures
        players_after_signings(players, sg).len() == players.len(),
    decreases sg.len(),
{
    if sg.len() > 0 {
        lemma_signings_len(players, sg.drop_last());
    }
}

proof fn lemma_signings_keep_ids(players: Seq<Player>, sg: Seq<(PlayerId, FaOffer)>, i: int)
    requires
        0 <= i < players.len(),
    ensures
        players_after_signings(players, sg)[i].id == players[i].id,
    decreases sg.len(),
{
    lemma_signings_len(players, sg);
    if sg.len() > 0 {
        lemma_signings_keep_ids(players, sg.drop_last(), i);
        lemma_signings_len(players, sg.drop_last());
    }
}

proof fn lemma_signed_by_real(sg: Seq<(PlayerId, FaOffer)>, t: TeamId, n: int)
    requires
        forall|q: int| 0 <= q < sg.len() ==> (#[trigger] sg[q]).0 < n,
    ensures
        forall|q: int| 0 <= q < signed_by(sg, t).len() ==> (#[trigger] signed_by(sg, t)[q]) < n,
    decreases sg.len(),
{
    if sg.len() > 0 {
        assert(forall|q: int| 0 <= q < sg.drop_last().len() ==> (#[trigger] sg.drop_last()[q]).0 == sg[q].0);
        lemma_signed_by_real(sg.drop_last(), t, n);
        let a = signed_by(sg.drop_last(), t);
        assert forall|q: int| 0 <= q < signed_by(sg, t).len() implies (#[trigger] signed_by(sg, t)[q]) < n by {
            if q < a.len() {
                assert(signed_by(sg, t)[q] == a[q]);
            } else {
                assert(sg[sg.len() - 1].0 < n);
            }
        }
    }
}

/// The position of the first best player (by overall, unknown ids as 0) in
/// a pool.
pub open spec fn best_index(players: Seq<Player>, pool: Seq<PlayerId>) -> int
    decreases pool.len(),
{
    if pool.len() <= 1 {
        0
    } else {
        let j = best_index(players, pool.drop_last());
        if ovr_or(players, pool.last(), 0) > ovr_or(players, pool[j], 0) { pool.len() - 1 } else { j }
    }
}

proof fn lemma_best_index_range(players: Seq<Player>, pool: Seq<PlayerId>)
    requires
        pool.len() > 0,
    ensures
        0 <= best_index(players, pool) < pool.len(),
    decreases pool.len(),
{
    if pool.len() > 1 {
        lemma_best_index_range(players, pool.drop_last());
    }
}

/// The end-of-offseason deal for a player signed to fill a roster: a
/// minimum deal for two years.
pub open spec fn fill_deal(pid: PlayerId, t: TeamId) -> (PlayerId, FaOffer) {
    (pid, FaOffer { team: t, salary: MIN_SALARY, years: 2 })
}

/// A team with `size` players takes the best remaining free agent, on a
/// minimum deal, again and again, until it has twelve or the pool runs dry.
pub open spec fn fill_list(players: Seq<Player>, pool: Seq<PlayerId>, size: int, t: TeamId)
    -> Seq<(PlayerId, FaOffer)>
    decreases 12 - size,
{
    if size >= 12 || pool.len() == 0 {
        Seq::empty()
    } else {
        let pid = pool[best_index(players, pool)];
        seq![fill_deal(pid, t)] + fill_list(players, without(pool, pid), size + 1, t)
    }
}

/// The ids of a run of signings.
pub open spec fn signing_ids(sg: Seq<(PlayerId, FaOffer)>) -> Seq<PlayerId> {
    sg.map_values(|e: (PlayerId, FaOffer)| e.0)
}

/// The roster fills of every CPU team, from team `t` on, in team order.
pub open spec fn fill_plan(l: League, pool: Seq<PlayerId>, t: int) -> Seq<(PlayerId, FaOffer)>
    decreases l.teams@.len() - t,
{
    if t < 0 || t >= l.teams@.len() {
        Seq::empty()
    } else if l.user_team_id == Some(t as TeamId) {
        fill_plan(l, pool, t + 1)
    } else {
        let s = fill_list(l.players@, pool, l.teams@[t].roster@.len() as int, t as TeamId);
        s + fill_plan(l, board_after(pool, signing_ids(s)), t + 1)
    }
}

proof fn lemma_board_after_front(p: Seq<PlayerId>, x: PlayerId, r: Seq<PlayerId>)
    ensures
        board_after(p, seq![x] + r) == board_after(without(p, x), r),
    decreases r.len(),
{
    if r.len() == 0 {
        assert(seq![x] + r =~= seq![x]);
        assert(seq![x].drop_last() =~= Seq::<PlayerId>::empty());
        assert(board_after(p, seq![x].drop_last()) == p);
        assert(seq![x].last() == x);
        assert(board_after(p, seq![x]) == without(p, x));
    } else {
        assert((seq![x] + r).drop_last() =~= seq![x] + r.drop_last());
        assert((seq![x] + r).last() == r.last());
        lemma_board_after_front(p, x, r.drop_last());
    }
}

/// Every real player in the pool is unsigned.
pub open spec fn pool_free(l: League) -> bool {
    l.free_agency matches Some(fa) && forall|k: int| 0 <= k < fa.pool@.len() && (fa.pool@[k] as int) < l.players@.len()
        ==> (#[trigger] l.players@[fa.pool@[k] as int]).team is None
}

proof fn lemma_signed_by_concat(a: Seq<(PlayerId, FaOffer)>, b: Seq<(PlayerId, FaOffer)>, t: TeamId)
    ensures
        signed_by(a + b, t) == signed_by(a, t) + signed_by(b, t),
    decreases b.len(),
{
    if b.len() == 0 {
        assert(a + b =~= a);
        assert(signed_by(a, t) + signed_by(b, t) =~= signed_by(a, t));
    } else {
        assert((a + b).drop_last() =~= a + b.drop_last());
        assert((a + b).last() == b.last());
        lemma_signed_by_concat(a, b.drop_last(), t);
        let x = if b.last().1.team == t { seq![b.last().0] } else { Seq::empty() };
        assert(signed_by(a, t) + signed_by(b.drop_last(), t) + x =~= signed_by(a, t) + (signed_by(b.drop_last(), t) + x));
    }
}

proof fn lemma_signed_by_team(sg: Seq<(PlayerId, FaOffer)>, t: TeamId)
    ensures
        (forall|i: int| 0 <= i < sg.len() ==> (#[trigger] sg[i]).1.team == t) ==> signed_by(sg, t) == signing_ids(sg),
        (forall|i: int| 0 <= i < sg.len() ==> (#[trigger] sg[i]).1.team != t) ==> signed_by(sg, t).len() == 0,
    decreases sg.len(),
{
    if sg.len() > 0 {
        lemma_signed_by_team(sg.drop_last(), t);
        assert(forall|i: int| 0 <= i < sg.drop_last().len() ==> sg.drop_last()[i] == #[trigger] sg[i]);
        if forall|i: int| 0 <= i < sg.len() ==> (#[trigger] sg[i]).1.team == t {
            assert(signing_ids(sg) =~= signing_ids(sg.drop_last()) + seq![sg.last().0]);
        }
    }
}

proof fn lemma_board_after_concat(p: Seq<PlayerId>, a: Seq<PlayerId>, b: Seq<PlayerId>)
    ensures
        board_after(p, a + b) == board_after(board_after(p, a), b),
    decreases b.len(),
{
    if b.len() == 0 {
        assert(a + b =~= a);
    } else {
        assert((a + b).drop_last() =~= a + b.drop_last());
        assert((a + b).last() == b.last());
        lemma_board_after_concat(p, a, b.drop_last());
    }
}

proof fn lemma_board_after_empty(p: Seq<PlayerId>, ids: Seq<PlayerId>)
    requires
        p.len() == 0,
    ensures
        board_after(p, ids).len() == 0,
    decreases ids.len(),
{
    if ids.len() > 0 {
        lemma_board_after_empty(p, ids.drop_last());
        board_after(p, ids.drop_last()).lemma_filter_len(|x: PlayerId| x != ids.last());
    }
}

/// One team's fill: every deal goes to that team; a team with twelve or more
/// players takes no one; otherwise it stops at twelve, or earlier only when
/// the pool is used up.
proof fn lemma_fill_list(players: Seq<Player>, pool: Seq<PlayerId>, size: int, t: TeamId)
    ensures
        forall|i: int| 0 <= i < fill_list(players, pool, size, t).len()
            ==> (#[trigger] fill_list(players, pool, size, t)[i]).1.team == t,
        size >= 12 ==> fill_list(players, pool, size, t).len() == 0,
        size < 12 ==> size + fill_list(players, pool, size, t).len() <= 12
            && (size + fill_list(players, pool, size, t).len() == 12
                || board_after(pool, signing_ids(fill_list(players, pool, size, t))).len() == 0),
    decreases 12 - size,
{
    let f = fill_list(players, pool, size, t);
    if size >= 12 || pool.len() == 0 {
        assert(signing_ids(f) =~= Seq::<PlayerId>::empty());
    } else {
        let pid = pool[best_index(players, pool)];
        let rest = fill_list(players, without(pool, pid), size + 1, t);
        lemma_fill_list(players, without(pool, pid), size + 1, t);
        assert(f == seq![fill_deal(pid, t)] + rest);
        assert forall|i: int| 0 <= i < f.len() implies (#[trigger] f[i]).1.team == t by {
            if i > 0 {
                assert(f[i] == rest[i - 1]);
            }
        }
        assert(signing_ids(f) =~= seq![pid] + signing_ids(rest));
        lemma_board_after_front(pool, pid, signing_ids(rest));
    }
}

proof fn lemma_fill_plan_teams(l: League, pool: Seq<PlayerId>, t0: int)
    requires
        l.teams@.len() <= u32::MAX,
    ensures
        forall|i: int| 0 <= i < fill_plan(l, pool, t0).len()
            ==> (#[trigger] fill_plan(l, pool, t0)[i]).1.team >= t0,
    decreases l.teams@.len() - t0,
{
    if 0 <= t0 < l.teams@.len() {
        if l.user_team_id == Some(t0 as TeamId) {
            lemma_fill_plan_teams(l, pool, t0 + 1);
            assert(fill_plan(l, pool, t0) == fill_plan(l, pool, t0 + 1));
        } else {
            let s = fill_list(l.players@, pool, l.teams@[t0].roster@.len() as int, t0 as TeamId);
            let rest = fill_plan(l, board_after(pool, signing_ids(s)), t0 + 1);
            lemma_fill_list(l.players@, pool, l.teams@[t0].roster@.len() as int, t0 as TeamId);
            lemma_fill_plan_teams(l, board_after(pool, signing_ids(s)), t0 + 1);
            assert((t0 as TeamId) as int == t0);
            assert(fill_plan(l, pool, t0) == s + rest);
            assert forall|i: int| 0 <= i < (s + rest).len() implies (#[trigger] (s + rest)[i]).1.team >= t0 by {
                if i < s.len() {
                    assert((s + rest)[i] == s[i]);
                } else {
                    assert((s + rest)[i] == rest[i - s.len()]);
                }
            }
            assert(forall|i: int| 0 <= i < fill_plan(l, pool, t0).len()
                ==> (#[trigger] fill_plan(l, pool, t0)[i]).1.team >= t0);
        }
    }
}

proof fn lemma_fill_plan_from(l: League, pool: Seq<PlayerId>, t0: int, t: int)
    requires
        l.teams@.len() <= u32::MAX,
        0 <= t0 <= t < l.teams@.len(),
    ensures
        ({
            let plan = fill_plan(l, pool, t0);
            let size = l.teams@[t].roster@.len();
            let got = signed_by(plan, t as TeamId).len();
            &&& (l.user_team_id == Some(t as TeamId) || size >= 12) ==> got == 0
            &&& (l.user_team_id != Some(t as TeamId) && size < 12) ==> size + got <= 12
                && (size + got == 12 || board_after(pool, signing_ids(plan)).len() == 0)
        }),
    decreases t - t0,
{
    let plan = fill_plan(l, pool, t0);
    let is_user = l.user_team_id == Some(t0 as TeamId);
    let s = if is_user { Seq::empty() } else {
        fill_list(l.players@, pool, l.teams@[t0].roster@.len() as int, t0 as TeamId) };
    let pool1 = board_after(pool, signing_ids(s));
    let rest = fill_plan(l, pool1, t0 + 1);
    if is_user {
        assert(s =~= Seq::<(PlayerId, FaOffer)>::empty());
        assert(signing_ids(s) =~= Seq::<PlayerId>::empty());
        assert(plan == rest);
        assert(s + rest =~= rest);
    } else {
        lemma_fill_list(l.players@, pool, l.teams@[t0].roster@.len() as int, t0 as TeamId);
    }
    assert(plan == s + rest);
    lemma_signed_by_concat(s, rest, t as TeamId);
    assert(signing_ids(s + rest) =~= signing_ids(s) + signing_ids(rest));
    lemma_board_after_concat(pool, signing_ids(s), signing_ids(rest));
    if t == t0 {
        lemma_fill_plan_teams(l, pool1, t0 + 1);
        lemma_signed_by_team(rest, t as TeamId);
        lemma_signed_by_team(s, t as TeamId);
        assert(signed_by(plan, t as TeamId) =~= signed_by(s, t as TeamId));
        if !is_user && l.teams@[t].roster@.len() < 12 && pool1.len() == 0 {
            lemma_board_after_empty(pool1, signing_ids(rest));
        }
        if is_user {
            assert(signed_by(s, t as TeamId) =~= Seq::<PlayerId>::empty());
        }
    } else {
        lemma_fill_plan_from(l, pool1, t0 + 1, t);
        if !is_user {
            assert forall|i: int| 0 <= i < s.len() implies (#[trigger] s[i]).1.team != t as TeamId by {}
        }
        lemma_signed_by_team(s, t as TeamId);
        assert(signed_by(plan, t as TeamId) =~= signed_by(rest, t as TeamId));
    }
}

/// The end-of-offseason roster fill: a CPU team with fewer than twelve
/// players takes free agents until it has twelve, stopping earlier only when
/// the pool runs dry; the user's team, and a team that already has twelve,
/// take no one.
pub proof fn lemma_fill_reaches_twelve(l: League, pool: Seq<PlayerId>, t: int)
    requires
        l.wf(),
        0 <= t < l.teams@.len(),
    ensures
        ({
            let plan = fill_plan(l, pool, 0);
            let size = l.teams@[t].roster@.len();
            let got = signed_by(plan, t as TeamId).len();
            &&& (l.user_team_id == Some(t as TeamId) || size >= 12) ==> got == 0
            &&& (l.user_team_id != Some(t as TeamId) && size < 12) ==> size + got <= 12
                && (size + got == 12 || board_after(pool, signing_ids(plan)).len() == 0)
        }),
{
    lemma_fill_plan_from(l, pool, 0, t);
}

/// Every end-of-offseason fill-in signs a minimum deal for two years with
/// the team being filled.
pub proof fn lemma_fill_deals_minimum(l: League, pool: Seq<PlayerId>, t0: int)
    requires
        l.teams@.len() <= u32::MAX,
    ensures
        forall|k: int| 0 <= k < fill_plan(l, pool, t0).len() ==>
            (#[trigger] fill_plan(l, pool, t0)[k]).1.salary == MIN_SALARY
            && fill_plan(l, pool, t0)[k].1.years == 2
            && l.user_team_id != Some(fill_plan(l, pool, t0)[k].1.team),
    decreases l.teams@.len() - t0,
{
    if 0 <= t0 < l.teams@.len() {
        if l.user_team_id == Some(t0 as TeamId) {
            lemma_fill_deals_minimum(l, pool, t0 + 1);
            assert(fill_plan(l, pool, t0) == fill_plan(l, pool, t0 + 1));
        } else {
            let s = fill_list(l.players@, pool, l.teams@[t0].roster@.len() as int, t0 as TeamId);
            let rest = fill_plan(l, board_after(pool, signing_ids(s)), t0 + 1);
            lemma_fill_list_deals(l.players@, pool, l.teams@[t0].roster@.len() as int, t0 as TeamId);
            lemma_fill_list(l.players@, pool, l.teams@[t0].roster@.len() as int, t0 as TeamId);
            lemma_fill_deals_minimum(l, board_after(pool, signing_ids(s)), t0 + 1);
            assert(fill_plan(l, pool, t0) == s + rest);
            assert forall|k: int| 0 <= k < (s + rest).len() implies
                (#[trigger] (s + rest)[k]).1.salary == MIN_SALARY && (s + rest)[k].1.years == 2
                && l.user_team_id != Some((s + rest)[k].1.team) by {
                if k < s.len() {
                    assert((s + rest)[k] == s[k]);
                } else {
                    assert((s + rest)[k] == rest[k - s.len()]);
                }
            }
        }
    }
}

proof fn lemma_fill_list_deals(players: Seq<Player>, pool: Seq<PlayerId>, size: int, t: TeamId)
    ensures
        forall|k: int| 0 <= k < fill_list(players, pool, size, t).len() ==>
            (#[trigger] fill_list(players, pool, size, t)[k]).1.salary == MIN_SALARY
            && fill_list(players, pool, size, t)[k].1.years == 2,
    decreases 12 - size,
{
    if !(size >= 12 || pool.len() == 0) {
        let pid = pool[best_index(players, pool)];
        let rest = fill_list(players, without(pool, pid), size + 1, t);
        lemma_fill_list_deals(players, without(pool, pid), size + 1, t);
        let f = fill_list(players, pool, size, t);
        assert(f == seq![fill_deal(pid, t)] + rest);
        assert forall|k: int| 0 <= k < f.len() implies (#[trigger] f[k]).1.salary == MIN_SALARY && f[k].1.years == 2 by {
            if k > 0 {
                assert(f[k] == rest[k - 1]);
            }
        }
    }
}

proof fn lemma_board_after_contains(p: Seq<PlayerId>, ids: Seq<PlayerId>, x: PlayerId)
    requires
        board_after(p, ids).contains(x),
    ensures
        p.contains(x),
        !ids.contains(x),
    decreases ids.len(),
{
    if ids.len() > 0 {
        crate::league_draft::lemma_without_contains(board_after(p, ids.drop_last()), ids.last(), x);
        lemma_board_after_contains(p, ids.drop_last(), x);
        if ids.contains(x) {
            let j = choose|j: int| 0 <= j < ids.len() && ids[j] == x;
            if j < ids.len() - 1 {
                assert(ids.drop_last()[j] == x);
            }
        }
    }
}

/// The free-agent pool names only real players.
pub open spec fn pool_real(l: League) -> bool {
    l.free_agency matches Some(fa) && forall|k: int| 0 <= k < fa.pool@.len() ==> (#[trigger] fa.pool@[k] as int) < l.players@.len()
}

impl League {
    /// The position of the first best player in a pool.
    fn best_in_pool(&self, pool: &Vec<PlayerId>) -> (b: usize)
        requires
            pool@.len() > 0,
        ensures
            b == best_index(self.players@, pool@),
            b < pool@.len(),
    {
        let mut b: usize = 0;
        let mut best: u8 = if (pool[0] as usize) < self.players.len() { self.players[pool[0] as usize].overall() } else { 0 };
        let mut i: usize = 1;
        while i < pool.len()
            invariant
                1 <= i <= pool@.len(),
                b == best_index(self.players@, pool@.take(i as int)),
                b < i,
                best == ovr_or(self.players@, pool@[b as int], 0),
            decreases pool@.len() - i,
        {
            proof {
                assert(pool@.take(i as int + 1).drop_last() =~= pool@.take(i as int));
                assert(pool@.take(i as int)[b as int] == pool@[b as int]);
            }
            let o: u8 = if (pool[i] as usize) < self.players.len() { self.players[pool[i] as usize].overall() } else { 0 };
            if o > best {
                b = i;
                best = o;
            }
            i = i + 1;
        }
        assert(pool@.take(i as int) =~= pool@);
        b
    }

    /// Sign free agents until every CPU team has twelve players (see
    /// `fill_plan`), taking them out of the pool.
    fn fill_cpu_rosters(&mut self)
        requires
            old(self).wf(),
            pool_real(*old(self)),
        ensures
            final(self).wf(),
            ({
                let plan = fill_plan(*old(self), old(self).free_agency.unwrap().pool@, 0);
                &&& final(self).players@ == players_after_signings(old(self).players@, plan)
                &&& final(self).teams@.len() == old(self).teams@.len()
                &&& forall|t: int| 0 <= t < old(self).teams@.len() ==> (#[trigger] final(self).teams@[t]) == (Team {
                    roster: final(self).teams@[t].roster, ..old(self).teams@[t] })
                    && final(self).teams@[t].roster@ == old(self).teams@[t].roster@ + signed_by(plan, t as TeamId)
                &&& final(self).free_agency matches Some(fa) && fa.round == old(self).free_agency.unwrap().round
                    && fa.offers == old(self).free_agency.unwrap().offers && fa.log == old(self).free_agency.unwrap().log
                    && fa.pool@ == board_after(old(self).free_agency.unwrap().pool@, signing_ids(plan))
            }),
            *final(self) == (League { players: final(self).players, teams: final(self).teams,
                free_agency: final(self).free_agency, ..*old(self) }),
            old(self).rosters_consistent() && pool_free(*old(self)) ==> final(self).rosters_consistent(),
    {
        let ghost s0 = *self;
        let mut fa = match self.free_agency.take() {
            Some(fa) => fa,
            None => return,
        };
        let ghost fa0 = fa;
        let ghost target = fill_plan(s0, fa0.pool@, 0);
        let mut plan: Vec<(PlayerId, FaOffer)> = Vec::new();
        let mut t: usize = 0;
        while t < self.teams.len()
            invariant
                *self == (League { free_agency: None, ..s0 }),
                s0.wf(),
                t <= self.teams@.len(),
                plan@ + fill_plan(s0, fa.pool@, t as int) == target,
                fa.pool@ == board_after(fa0.pool@, signing_ids(plan@)),
                fa.round == fa0.round && fa.offers == fa0.offers && fa.log == fa0.log,
                forall|k: int| 0 <= k < fa.pool@.len() ==> (#[trigger] fa.pool@[k] as int) < s0.players@.len(),
                forall|k: int| 0 <= k < plan@.len() ==> (#[trigger] plan@[k]).0 < s0.players@.len(),
                crate::league_trade::distinct_ids(signing_ids(plan@)),
                forall|k: int| 0 <= k < plan@.len() ==> fa0.pool@.contains((#[trigger] plan@[k]).0),
            decreases self.teams@.len() - t,
        {
            let tid = t as TeamId;
            if self.user_team_id != Some(tid) {
                let mut size: usize = self.teams[t].roster.len();
                let ghost size0 = size;
                proof {
                    assert(fill_plan(s0, fa.pool@, t as int) == fill_list(s0.players@, fa.pool@, size as int, tid)
                        + fill_plan(s0, board_after(fa.pool@, signing_ids(fill_list(s0.players@, fa.pool@, size as int, tid))), t + 1));
                }
                while size < 12 && fa.pool.len() > 0
                    invariant
                        *self == (League { free_agency: None, ..s0 }),
                        s0.wf(),
                        t < self.teams@.len(),
                        tid as int == t,
                        plan@ + fill_list(s0.players@, fa.pool@, size as int, tid)
                            + fill_plan(s0, board_after(fa.pool@, signing_ids(fill_list(s0.players@, fa.pool@, size as int, tid))), t + 1)
                            == target,
                        fa.pool@ == board_after(fa0.pool@, signing_ids(plan@)),
                        fa.round == fa0.round && fa.offers == fa0.offers && fa.log == fa0.log,
                        forall|k: int| 0 <= k < fa.pool@.len() ==> (#[trigger] fa.pool@[k] as int) < s0.players@.len(),
                        forall|k: int| 0 <= k < plan@.len() ==> (#[trigger] plan@[k]).0 < s0.players@.len(),
                        crate::league_trade::distinct_ids(signing_ids(plan@)),
                        forall|k: int| 0 <= k < plan@.len() ==> fa0.pool@.contains((#[trigger] plan@[k]).0),
                    decreases 12 - size,
                {
                    let bi = self.best_in_pool(&fa.pool);
                    let pid = fa.pool[bi];
                    let ghost p0 = fa.pool@;
                    let deal = (pid, FaOffer { team: tid, salary: MIN_SALARY, years: 2 });
                    assert(deal == fill_deal(pid, tid));
                    let ghost rest = fill_list(s0.players@, without(p0, pid), size as int + 1, tid);
                    let ghost plan_before = plan@;
                    proof {
                        assert(fa.pool@.contains(pid)) by { assert(fa.pool@[bi as int] == pid); }
                        lemma_board_after_contains(fa0.pool@, signing_ids(plan_before), pid);
                    }
                    plan.push(deal);
                    proof {
                        let ids = signing_ids(plan@);
                        assert(ids =~= signing_ids(plan_before).push(pid));
                        assert forall|i: int, j: int| 0 <= i < j < ids.len() implies #[trigger] ids[i] != #[trigger] ids[j] by {
                            if j < ids.len() - 1 {
                                assert(signing_ids(plan_before)[i] != signing_ids(plan_before)[j]);
                            } else {
                                assert(signing_ids(plan_before)[i] == ids[i]);
                            }
                        }
                        assert forall|k: int| 0 <= k < plan@.len() implies fa0.pool@.contains((#[trigger] plan@[k]).0) by {
                            if k < plan_before.len() {
                                assert(plan@[k] == plan_before[k]);
                            }
                        }
                    }
                    let mut kept: Vec<PlayerId> = Vec::new();
                    let mut q: usize = 0;
                    while q < fa.pool.len()
                        invariant
                            q <= fa.pool@.len(),
                            fa.pool@ == p0,
                            kept@ == without(fa.pool@.take(q as int), pid),
                        decreases fa.pool@.len() - q,
                    {
                        proof {
                            assert(fa.pool@.take(q as int + 1).drop_last() =~= fa.pool@.take(q as int));
                            reveal_with_fuel(Seq::filter, 1);
                        }
                        let x = fa.pool[q];
                        assert(fa.pool@.take(q as int + 1).last() == x);
                        if x != pid {
                            kept.push(x);
                        }
                        q = q + 1;
                    }
                    assert(fa.pool@.take(q as int) =~= fa.pool@);
                    fa.pool = kept;
                    size = size + 1;
                    proof {
                        assert(fill_list(s0.players@, p0, size - 1, tid) == seq![deal] + rest);
                        assert(signing_ids(seq![deal] + rest) =~= seq![pid] + signing_ids(rest));
                        lemma_board_after_front(p0, pid, signing_ids(rest));
                        assert(plan@ =~= plan_before + seq![deal]);
                        assert(plan_before + (seq![deal] + rest) =~= plan@ + rest);
                        assert(signing_ids(plan@).drop_last() =~= signing_ids(plan_before));
                        assert(signing_ids(plan@).last() == pid);
                        assert forall|k: int| 0 <= k < fa.pool@.len() implies (#[trigger] fa.pool@[k] as int) < s0.players@.len() by {
                            assert(without(p0, pid)[k] == fa.pool@[k]);
                            lemma_without_member(p0, pid, k);
                        }
                    }
                }
                proof {
                    assert(fill_list(s0.players@, fa.pool@, size as int, tid) =~= Seq::<(PlayerId, FaOffer)>::empty());
                    assert(signing_ids(Seq::<(PlayerId, FaOffer)>::empty()) =~= Seq::<PlayerId>::empty());
                    assert(plan@ + Seq::<(PlayerId, FaOffer)>::empty() =~= plan@);
                }
            }
            t = t + 1;
        }
        assert(plan@ =~= target);
        self.free_agency = Some(fa);
        proof {
            if s0.rosters_consistent() && pool_free(s0) {
                assert forall|i: int| 0 <= i < plan@.len() implies (#[trigger] plan@[i]).0 < s0.players@.len()
                    && s0.players@[plan@[i].0 as int].team is None by {
                    assert(fa0.pool@.contains(plan@[i].0));
                    let k = choose|k: int| 0 <= k < fa0.pool@.len() && fa0.pool@[k] == plan@[i].0;
                }
                assert(signs_free_agents(*self, plan@));
            }
        }
        self.sign_players(&plan);
    }

    /// End free agency: fill out thin CPU rosters with the best remaining free
    /// agents, then start the new season.
    pub fn fa_finish(&mut self)
        requires
            old(self).wf(),
            pool_real(*old(self)),
            old(self).season + 1 + PICK_YEARS <= u32::MAX,
            old(self).next_pick_id + 512 <= u32::MAX,
        ensures
            final(self).wf(),
            exists|mid: League| #![trigger season_started(mid, *final(self))] {
                let plan = fill_plan(*old(self), old(self).free_agency.unwrap().pool@, 0);
                &&& mid.wf()
                &&& mid.players@ == players_after_signings(old(self).players@, plan)
                &&& mid.teams@.len() == old(self).teams@.len()
                &&& (forall|t: int| 0 <= t < old(self).teams@.len() ==> (#[trigger] mid.teams@[t]) == (Team {
                    roster: mid.teams@[t].roster, ..old(self).teams@[t] })
                    && mid.teams@[t].roster@ == old(self).teams@[t].roster@ + signed_by(plan, t as TeamId))
                &&& mid == (League { players: mid.players, teams: mid.teams, free_agency: mid.free_agency, ..*old(self) })
                &&& season_started(mid, *final(self))
            },
            old(self).rosters_consistent() && pool_free(*old(self)) ==> final(self).rosters_consistent(),
    {
        self.fill_cpu_rosters();
        let ghost mid = *self;
        self.start_new_season();
        assert(season_started(mid, *self));
    }
}

proof fn lemma_without_member(p: Seq<PlayerId>, y: PlayerId, k: int)
    requires
        0 <= k < without(p, y).len(),
    ensures
        p.contains(without(p, y)[k]),
{
    let e = without(p, y)[k];
    assert(without(p, y).contains(e));
    crate::league_draft::lemma_without_contains(p, y, e);
}


/// The offers among `offers` made to `pid`, in the order `idxs` names them
/// (an index out of range, or naming another player's offer, is passed over).
pub open spec fn picked_offers(offers: Seq<(PlayerId, FaOffer)>, pid: PlayerId, idxs: Seq<usize>) -> Seq<FaOffer>
    decreases idxs.len(),
{
    if idxs.len() == 0 {
        Seq::empty()
    } else {
        let k = idxs.last() as int;
        picked_offers(offers, pid, idxs.drop_last()) + if k < offers.len() && offers[k].0 == pid {
            seq![offers[k].1]
        } else {
            Seq::empty()
        }
    }
}

/// A round's choices: the `k`-th free agent of the sorted pool weighs the
/// offers `ranking[k]` names, in that order (none when the ranking stops
/// short).
pub open spec fn round_choices(pool: Seq<PlayerId>, offers: Seq<(PlayerId, FaOffer)>, ranking: Seq<Seq<usize>>)
    -> Seq<(PlayerId, Seq<FaOffer>)> {
    Seq::new(pool.len(), |k: int| (pool[k], if k < ranking.len() {
        picked_offers(offers, pool[k], ranking[k])
    } else {
        Seq::empty()
    }))
}

/// Each team's open roster spots, by team id.
pub open spec fn league_room(l: League) -> Seq<i64> {
    Seq::new(l.teams@.len(), |t: int| (ROSTER_MAX - l.teams@[t].roster@.len()) as i64)
}

/// Each team's cap space, by team id.
pub open spec fn league_space(l: League) -> Seq<i64> {
    Seq::new(l.teams@.len(), |t: int| (SALARY_CAP - l.payroll_of(t as TeamId)) as i64)
}

/// The signings of a round of free agency: the pool, best overall first;
/// the offers on file and the CPU teams' bids over it; each free agent in
/// turn signs the offer he ranks highest among those his suitor can still
/// afford.
pub open spec fn round_signings(l: League, pool: Seq<PlayerId>, ranking: Seq<Seq<usize>>) -> Seq<(PlayerId, FaOffer)> {
    settle_from(league_room(l), league_space(l),
        round_choices(pool, all_bids(l, l.free_agency.unwrap().offers@, l.user_team_id.unwrap(), pool, 0), ranking), 0)
}

/// `new` is `old` after a round's signings are settled: the players join
/// their teams on the offered contracts, leave the pool, the offers clear,
/// the round advances and the log lists the signings.
pub open spec fn signings_applied(old: League, new: League, sg: Seq<(PlayerId, FaOffer)>) -> bool {
    let fa0 = old.free_agency.unwrap();
    &&& new.players@ == players_after_signings(old.players@, sg)
    &&& new.teams@.len() == old.teams@.len()
    &&& forall|t: int| 0 <= t < old.teams@.len() ==> (#[trigger] new.teams@[t]) == (Team {
        roster: new.teams@[t].roster, ..old.teams@[t] })
        && new.teams@[t].roster@ == old.teams@[t].roster@ + signed_by(sg, t as TeamId)
    &&& new.free_agency matches Some(fa)
    &&& new.free_agency.unwrap().round == fa0.round + 1
    &&& new.free_agency.unwrap().pool@ == board_after(fa0.pool@, sg.map_values(|e: (PlayerId, FaOffer)| e.0))
    &&& new.free_agency.unwrap().offers@.len() == 0
    &&& new.free_agency.unwrap().log@.len() == sg.len()
    &&& forall|i: int| 0 <= i < sg.len() ==> (#[trigger] new.free_agency.unwrap().log@[i])@
        == signing_line(old.players@, old.teams@, sg[i].0, sg[i].1)
    &&& new == (League { players: new.players, teams: new.teams, free_agency: new.free_agency, ..old })
}

proof fn lemma_settle_ids(room: Seq<i64>, space: Seq<i64>, choices: Seq<(PlayerId, Seq<FaOffer>)>, i: int, n: int)
    requires
        forall|k: int| 0 <= k < choices.len() ==> (#[trigger] choices[k]).0 < n,
    ensures
        forall|k: int| 0 <= k < settle_from(room, space, choices, i).len()
            ==> (#[trigger] settle_from(room, space, choices, i)[k]).0 < n,
    decreases choices.len() - i,
{
    if 0 <= i < choices.len() {
        let c = choices[i];
        let r = c.1;
        let k0 = first_allowed(room, space, r, 0);
        lemma_first_allowed(room, space, r, 0);
        if k0 < r.len() {
            let o = r[k0];
            let t = o.team as int;
            let room1 = room.update(t, (room[t] - 1) as i64);
            let space1 = space.update(t, (space[t] - o.salary) as i64);
            lemma_settle_ids(room1, space1, choices, i + 1, n);
            let rest = settle_from(room1, space1, choices, i + 1);
            assert(settle_from(room, space, choices, i) == seq![(c.0, o)] + rest);
            assert forall|k: int| 0 <= k < (seq![(c.0, o)] + rest).len()
                implies (#[trigger] (seq![(c.0, o)] + rest)[k]).0 < n by {
                if k > 0 {
                    assert((seq![(c.0, o)] + rest)[k] == rest[k - 1]);
                }
            }
        } else {
            lemma_settle_ids(room, space, choices, i + 1, n);
            assert(settle_from(room, space, choices, i) == settle_from(room, space, choices, i + 1));
        }
    }
}

/// A CPU team's bid: from a team other than the user's, at the player's
/// market salary, for the years his age calls for.
pub open spec fn cpu_bid(players: Seq<Player>, user: TeamId, e: (PlayerId, FaOffer)) -> bool {
    &&& e.1.team != user
    &&& e.1.salary == market_salary_of(ovr_or(players, e.0, 50))
    &&& e.1.years == cpu_years(age_or(players, e.0, 25))
}

proof fn lemma_team_bids_entries(players: Seq<Player>, offers: Seq<(PlayerId, FaOffer)>, t: TeamId, sp: int,
    made: int, pool: Seq<PlayerId>, i: int, user: TeamId)
    requires
        t != user,
    ensures
        forall|k: int| 0 <= k < team_bids(players, offers, t, sp, made, pool, i).len() ==>
            offers.contains(#[trigger] team_bids(players, offers, t, sp, made, pool, i)[k])
            || cpu_bid(players, user, team_bids(players, offers, t, sp, made, pool, i)[k]),
    decreases pool.len() - i,
{
    if i < 0 || i >= pool.len() || made >= 2 {
        assert forall|k: int| 0 <= k < offers.len() implies offers.contains(#[trigger] offers[k]) by {}
    } else {
        let pid = pool[i];
        let mkt = market_salary_of(ovr_or(players, pid, 50));
        if !has_offer(offers, pid, t) && mkt <= sp {
            let e = (pid, FaOffer { team: t, salary: mkt as u32, years: cpu_years(age_or(players, pid, 25)) });
            let o2 = offers.push(e);
            lemma_team_bids_entries(players, o2, t, sp - mkt, made + 1, pool, i + 1, user);
            let res = team_bids(players, o2, t, sp - mkt, made + 1, pool, i + 1);
            assert(team_bids(players, offers, t, sp, made, pool, i) == res);
            assert forall|k: int| 0 <= k < res.len() implies offers.contains(#[trigger] res[k]) || cpu_bid(players, user, res[k]) by {
                if o2.contains(res[k]) {
                    let j = choose|j: int| 0 <= j < o2.len() && o2[j] == res[k];
                    if j < offers.len() {
                        assert(offers[j] == res[k]);
                    } else {
                        assert(res[k] == e);
                        assert(MIN_SALARY <= mkt <= MAX_SALARY);
                    }
                }
            }
        } else {
            lemma_team_bids_entries(players, offers, t, sp, made, pool, i + 1, user);
            assert(team_bids(players, offers, t, sp, made, pool, i) == team_bids(players, offers, t, sp, made, pool, i + 1));
        }
    }
}

proof fn lemma_all_bids_entries(l: League, offers: Seq<(PlayerId, FaOffer)>, user: TeamId, pool: Seq<PlayerId>, t: int)
    requires
        l.teams@.len() <= u32::MAX,
    ensures
        forall|k: int| 0 <= k < all_bids(l, offers, user, pool, t).len() ==>
            offers.contains(#[trigger] all_bids(l, offers, user, pool, t)[k])
            || cpu_bid(l.players@, user, all_bids(l, offers, user, pool, t)[k]),
    decreases l.teams@.len() - t,
{
    if t < 0 || t >= l.teams@.len() {
        assert forall|k: int| 0 <= k < offers.len() implies offers.contains(#[trigger] offers[k]) by {}
    } else {
        let next = if t == user as int || ROSTER_MAX - l.teams@[t].roster@.len() <= 0 {
            offers
        } else {
            team_bids(l.players@, offers, t as TeamId, SALARY_CAP - l.payroll_of(t as TeamId), 0, pool, 0)
        };
        if !(t == user as int || ROSTER_MAX - l.teams@[t].roster@.len() <= 0) {
            assert((t as TeamId) != user);
            lemma_team_bids_entries(l.players@, offers, t as TeamId, SALARY_CAP - l.payroll_of(t as TeamId), 0, pool, 0, user);
        }
        lemma_all_bids_entries(l, next, user, pool, t + 1);
        let res = all_bids(l, next, user, pool, t + 1);
        assert(all_bids(l, offers, user, pool, t) == res);
        assert forall|k: int| 0 <= k < res.len() implies offers.contains(#[trigger] res[k]) || cpu_bid(l.players@, user, res[k]) by {
            if next.contains(res[k]) && next != offers {
                let j = choose|j: int| 0 <= j < next.len() && next[j] == res[k];
                assert(next[j] == team_bids(l.players@, offers, t as TeamId, SALARY_CAP - l.payroll_of(t as TeamId), 0, pool, 0)[j]);
            }
        }
    }
}

/// What a CPU team bids in free agency: every bid of a round that is not an
/// offer already on file comes from a team other than the user's, at the
/// player's market salary for his overall, for 4 years when he is 27 or
/// younger, 3 years from 28 to 31, and 2 years from 32 on.
pub proof fn lemma_cpu_bid_terms(l: League, offers: Seq<(PlayerId, FaOffer)>, user: TeamId, pool: Seq<PlayerId>)
    requires
        l.teams@.len() <= u32::MAX,
    ensures
        forall|k: int| 0 <= k < all_bids(l, offers, user, pool, 0).len()
            && !offers.contains(#[trigger] all_bids(l, offers, user, pool, 0)[k]) ==> {
            let e = all_bids(l, offers, user, pool, 0)[k];
            let age = age_or(l.players@, e.0, 25);
            &&& e.1.team != user
            &&& e.1.salary == market_salary_of(ovr_or(l.players@, e.0, 50))
            &&& e.1.years == (if age <= 27 { 4u8 } else if age <= 31 { 3u8 } else { 2u8 })
        },
{
    lemma_all_bids_entries(l, offers, user, pool, 0);
}

proof fn lemma_picked_from(offers: Seq<(PlayerId, FaOffer)>, pid: PlayerId, idxs: Seq<usize>, o: FaOffer)
    requires
        picked_offers(offers, pid, idxs).contains(o),
    ensures
        offers.contains((pid, o)),
    decreases idxs.len(),
{
    if idxs.len() > 0 {
        let prev = picked_offers(offers, pid, idxs.drop_last());
        let k = idxs.last() as int;
        let j = choose|j: int| 0 <= j < picked_offers(offers, pid, idxs).len() && picked_offers(offers, pid, idxs)[j] == o;
        if j < prev.len() {
            assert(prev[j] == o);
            lemma_picked_from(offers, pid, idxs.drop_last(), o);
        } else {
            assert(k < offers.len() && offers[k].0 == pid && offers[k].1 == o);
            assert(offers[k] == (pid, o));
        }
    }
}

proof fn lemma_settle_from_choices(room: Seq<i64>, space: Seq<i64>, choices: Seq<(PlayerId, Seq<FaOffer>)>, i: int)
    ensures
        forall|k: int| 0 <= k < settle_from(room, space, choices, i).len() ==> exists|j: int| 0 <= j < choices.len()
            && choices[j].0 == (#[trigger] settle_from(room, space, choices, i)[k]).0
            && choices[j].1.contains(settle_from(room, space, choices, i)[k].1),
    decreases choices.len() - i,
{
    if 0 <= i < choices.len() {
        let c = choices[i];
        let r = c.1;
        let k0 = first_allowed(room, space, r, 0);
        lemma_first_allowed(room, space, r, 0);
        if k0 < r.len() {
            let o = r[k0];
            let t = o.team as int;
            let room1 = room.update(t, (room[t] - 1) as i64);
            let space1 = space.update(t, (space[t] - o.salary) as i64);
            lemma_settle_from_choices(room1, space1, choices, i + 1);
            let rest = settle_from(room1, space1, choices, i + 1);
            assert(settle_from(room, space, choices, i) == seq![(c.0, o)] + rest);
            assert forall|k: int| 0 <= k < (seq![(c.0, o)] + rest).len() implies exists|j: int| 0 <= j < choices.len()
                && choices[j].0 == (#[trigger] (seq![(c.0, o)] + rest)[k]).0
                && choices[j].1.contains((seq![(c.0, o)] + rest)[k].1) by {
                if k == 0 {
                    assert(r[k0] == o);
                    assert(choices[i].1.contains(o));
                } else {
                    assert((seq![(c.0, o)] + rest)[k] == rest[k - 1]);
                }
            }
        } else {
            lemma_settle_from_choices(room, space, choices, i + 1);
            assert(settle_from(room, space, choices, i) == settle_from(room, space, choices, i + 1));
        }
    }
}

impl League {
    /// Run one round of free agency with each free agent's ranking of the
    /// offers made to him: `ranking[k]` lists, most favoured first, indices
    /// into the round's offers (the offers on file, then the CPU bids; see
    /// `fa_cpu_offers`) for the `k`-th free agent of the pool sorted best
    /// overall first. Each free agent in turn signs the offer he ranks
    /// highest among those his suitor can still afford; then the round is
    /// settled (see `apply_fa_signings`). No team ends the round past fifteen
    /// players or past the cap unless it already was, and then it signed no
    /// one. Returns the signings.
    pub fn fa_round(&mut self, ranking: &Vec<Vec<usize>>) -> (signed: Vec<(PlayerId, FaOffer)>)
        requires
            old(self).wf(),
            old(self).user_team_id is Some,
            old(self).free_agency matches Some(fa) && fa.round < u32::MAX,
            payrolls_fit(*old(self)),
            pool_real(*old(self)),
        ensures
            final(self).wf(),
            exists|pool: Seq<PlayerId>| #[trigger] sorted_by_overall(old(self).players@, old(self).free_agency.unwrap().pool@, pool)
                && signed@ == round_signings(*old(self), pool, ranking@.map_values(|v: Vec<usize>| v@)),
            signings_applied(*old(self), *final(self), signed@),
            forall|t: int| 0 <= t < old(self).teams@.len() ==> {
                let n = old(self).teams@[t].roster@.len() as int;
                let pay = old(self).payroll_of(t as TeamId);
                &&& #[trigger] final(self).teams@[t].roster@.len() <= (if n < ROSTER_MAX { ROSTER_MAX as int } else { n })
                &&& pay + salary_signed(signed@, t as TeamId) <= (if pay < SALARY_CAP { SALARY_CAP as int } else { pay })
            },
            forall|k: int| 0 <= k < signed@.len() ==>
                old(self).free_agency.unwrap().offers@.contains(#[trigger] signed@[k])
                || cpu_bid(old(self).players@, old(self).user_team_id.unwrap(), signed@[k]),
    {
        let ghost l0 = *self;
        let ghost rv = ranking@.map_values(|v: Vec<usize>| v@);
        let pool = self.fa_pool_by_overall();
        let offers = self.fa_cpu_offers(&pool);
        let budget = self.fa_budget();
        let ghost b0 = budget;
        let mut choices: Vec<FaChoice> = Vec::new();
        let mut k: usize = 0;
        while k < pool.len()
            invariant
                k <= pool@.len(),
                choices@.len() == k,
                rv == ranking@.map_values(|v: Vec<usize>| v@),
                forall|j: int| 0 <= j < k ==> (#[trigger] choices_view(choices@)[j])
                    == round_choices(pool@, offers@, rv)[j],
            decreases pool@.len() - k,
        {
            let pid = pool[k];
            let mut ranked: Vec<FaOffer> = Vec::new();
            if k < ranking.len() {
                let idxs = &ranking[k];
                let mut q: usize = 0;
                while q < idxs.len()
                    invariant
                        q <= idxs@.len(),
                        ranked@ == picked_offers(offers@, pid, idxs@.take(q as int)),
                    decreases idxs@.len() - q,
                {
                    let x = idxs[q];
                    proof {
                        assert(idxs@.take(q + 1).drop_last() =~= idxs@.take(q as int));
                        assert(idxs@.take(q + 1).last() == x);
                    }
                    if x < offers.len() && offers[x].0 == pid {
                        ranked.push(offers[x].1);
                    }
                    proof {
                        assert(ranked@ =~= picked_offers(offers@, pid, idxs@.take(q + 1)));
                    }
                    q = q + 1;
                }
                proof {
                    assert(idxs@.take(idxs@.len() as int) =~= idxs@);
                    assert(rv[k as int] == idxs@);
                }
            }
            let ghost prev = choices@;
            choices.push(FaChoice { player: pid, ranked });
            proof {
                assert forall|j: int| 0 <= j < k + 1 implies (#[trigger] choices_view(choices@)[j])
                    == round_choices(pool@, offers@, rv)[j] by {
                    if j < k {
                        assert(choices@[j] == prev[j]);
                        assert(choices_view(prev)[j] == round_choices(pool@, offers@, rv)[j]);
                    }
                }
            }
            k = k + 1;
        }
        proof {
            assert(choices_view(choices@) =~= round_choices(pool@, offers@, rv));
            assert(b0.room@ =~= league_room(l0));
            assert(b0.space@ =~= league_space(l0));
        }
        let signed = budget.settle(&choices);
        proof {
            let fa0 = l0.free_agency.unwrap();
            let order = choose|order: Seq<usize>| #[trigger] is_key_order(pool_keys(l0.players@, fa0.pool@), order)
                && pool@ == order.map_values(|i: usize| fa0.pool@[i as int]);
            assert forall|j: int| 0 <= j < round_choices(pool@, offers@, rv).len()
                implies (#[trigger] round_choices(pool@, offers@, rv)[j]).0 < l0.players@.len() by {
                assert(pool@[j] == fa0.pool@[order[j] as int]);
            }
            lemma_settle_ids(league_room(l0), league_space(l0), round_choices(pool@, offers@, rv), 0,
                l0.players@.len() as int);
        }
        proof {
            let cv = round_choices(pool@, offers@, rv);
            let user = l0.user_team_id.unwrap();
            let on_file = l0.free_agency.unwrap().offers@;
            lemma_settle_from_choices(league_room(l0), league_space(l0), cv, 0);
            lemma_all_bids_entries(l0, on_file, user, pool@, 0);
            assert forall|k: int| 0 <= k < signed@.len() implies
                on_file.contains(#[trigger] signed@[k]) || cpu_bid(l0.players@, user, signed@[k]) by {
                let j = choose|j: int| 0 <= j < cv.len() && cv[j].0 == signed@[k].0 && cv[j].1.contains(signed@[k].1);
                let idxs = if j < rv.len() { rv[j] } else { Seq::<usize>::empty() };
                assert(cv[j].1 == picked_offers(offers@, pool@[j], idxs));
                lemma_picked_from(offers@, pool@[j], idxs, signed@[k].1);
                assert(offers@.contains(signed@[k]));
                let q = choose|q: int| 0 <= q < offers@.len() && offers@[q] == signed@[k];
                assert(offers@[q] == all_bids(l0, on_file, user, pool@, 0)[q]);
            }
        }
        self.apply_fa_signings(&signed);
        proof {
            assert forall|t: int| 0 <= t < l0.teams@.len() implies {
                let n = l0.teams@[t].roster@.len() as int;
                let pay = l0.payroll_of(t as TeamId);
                &&& #[trigger] self.teams@[t].roster@.len() <= (if n < ROSTER_MAX { ROSTER_MAX as int } else { n })
                &&& pay + salary_signed(signed@, t as TeamId) <= (if pay < SALARY_CAP { SALARY_CAP as int } else { pay })
            } by {
                lemma_round_within_limits(l0, b0, choices_view(choices@), t as TeamId);
            }
        }
        signed
    }
}

} // verus!
