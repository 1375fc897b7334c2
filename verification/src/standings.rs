//! Standings: ordering teams within a conference.
//!
//! Teams are ranked by winning percentage (best first), then by wins, then by
//! full name in string order; teams that tie on all three keep the order of
//! the team table. Winning percentages are compared exactly, as fractions.

use vstd::prelude::*;
use vstd::utf8::encode_utf8;
use crate::team::{full_name_of, Team};
use crate::types::{Conference, TeamId};

verus! {

/// A team's line in the standings table.
#[derive(Debug, Clone, Copy)]
pub struct StandingsRow {
    pub seed: u32,
    pub team_id: TeamId,
    pub wins: u32,
    pub losses: u32,
}

// ---------------------------------------------------------------------------
// Byte-wise lexicographic order (the order of Rust strings)
// ---------------------------------------------------------------------------

/// `a` and `b` agree before position `i`, and at `i` either `a` has ended
/// while `b` goes on, or `a` has the smaller byte.
pub open spec fn lt_at(a: Seq<u8>, b: Seq<u8>, i: int) -> bool {
    &&& 0 <= i <= a.len()
    &&& i <= b.len()
    &&& forall|j: int| 0 <= j < i ==> a[j] == b[j]
    &&& ((i == a.len() && i < b.len()) || (i < a.len() && i < b.len() && a[i] < b[i]))
}

/// `a` sorts strictly before `b`.
pub open spec fn bytes_lt(a: Seq<u8>, b: Seq<u8>) -> bool {
    exists|i: int| #[trigger] lt_at(a, b, i)
}

proof fn lemma_bytes_lt_irreflexive(a: Seq<u8>)
    ensures
        !bytes_lt(a, a),
{
}

proof fn lemma_bytes_lt_transitive(a: Seq<u8>, b: Seq<u8>, c: Seq<u8>)
    requires
        bytes_lt(a, b),
        bytes_lt(b, c),
    ensures
        bytes_lt(a, c),
{
    let i = choose|i: int| #[trigger] lt_at(a, b, i);
    let j = choose|j: int| #[trigger] lt_at(b, c, j);
    let m = if i < j { i } else { j };
    assert(lt_at(a, c, m));
}

proof fn lemma_bytes_lt_total(a: Seq<u8>, b: Seq<u8>)
    requires
        a != b,
    ensures
        bytes_lt(a, b) || bytes_lt(b, a),
    decreases a.len(),
{
    if a.len() == 0 {
        if b.len() == 0 {
            assert(a =~= b);
        } else {
            assert(lt_at(a, b, 0));
        }
    } else if b.len() == 0 {
        assert(lt_at(b, a, 0));
    } else if a[0] != b[0] {
        if a[0] < b[0] {
            assert(lt_at(a, b, 0));
        } else {
            assert(lt_at(b, a, 0));
        }
    } else {
        let a1 = a.drop_first();
        let b1 = b.drop_first();
        if a1 == b1 {
            assert(a =~= seq![a[0]] + a1);
            assert(b =~= seq![b[0]] + b1);
        }
        lemma_bytes_lt_total(a1, b1);
        assert forall|j: int| 1 <= j < a.len() implies a[j] == a1[j - 1] by {}
        assert forall|j: int| 1 <= j < b.len() implies b[j] == b1[j - 1] by {}
        if bytes_lt(a1, b1) {
            let i = choose|i: int| #[trigger] lt_at(a1, b1, i);
            assert forall|j: int| 0 <= j < i + 1 implies a[j] == b[j] by {
                if j > 0 {
                    assert(a1[j - 1] == b1[j - 1]);
                }
            }
            assert(lt_at(a, b, i + 1));
        } else {
            let i = choose|i: int| #[trigger] lt_at(b1, a1, i);
            assert forall|j: int| 0 <= j < i + 1 implies b[j] == a[j] by {
                if j > 0 {
                    assert(a1[j - 1] == b1[j - 1]);
                }
            }
            assert(lt_at(b, a, i + 1));
        }
    }
}

/// Compare two byte strings in lexicographic order.
pub fn bytes_less(a: &[u8], b: &[u8]) -> (r: bool)
    ensures
        r == bytes_lt(a@, b@),
{
    let mut k: usize = 0;
    while k < a.len() && k < b.len() && a[k] == b[k]
        invariant
            k <= a@.len(),
            k <= b@.len(),
            forall|j: int| 0 <= j < k ==> a@[j] == b@[j],
        decreases a@.len() - k,
    {
        k = k + 1;
    }
    let r = if k < a.len() && k < b.len() {
        a[k] < b[k]
    } else {
        k == a.len() && k < b.len()
    };
    proof {
        if r {
            assert(lt_at(a@, b@, k as int));
        } else {
            assert forall|i: int| !lt_at(a@, b@, i) by {
                if lt_at(a@, b@, i) {
                    if i < k {
                        assert(a@[i] == b@[i]);
                    } else if i > k {
                        assert(a@[k as int] == b@[k as int]);
                    }
                }
            }
        }
    }
    r
}

// ---------------------------------------------------------------------------
// The ranking of two teams
// ---------------------------------------------------------------------------

/// Winning percentage as a fraction `num / den` (0 for a team with no games).
pub open spec fn pct_num(t: Team) -> int {
    if t.wins + t.losses == 0 { 0 } else { t.wins as int }
}

pub open spec fn pct_den(t: Team) -> int {
    if t.wins + t.losses == 0 { 1 } else { t.wins + t.losses }
}

/// `a` has the strictly higher winning percentage.
pub open spec fn pct_gt(a: Team, b: Team) -> bool {
    pct_num(a) * pct_den(b) > pct_num(b) * pct_den(a)
}

/// `a` and `b` have the same winning percentage.
pub open spec fn pct_eq(a: Team, b: Team) -> bool {
    pct_num(a) * pct_den(b) == pct_num(b) * pct_den(a)
}

/// The bytes of the team's full name.
pub open spec fn name_key(t: Team) -> Seq<u8> {
    encode_utf8(full_name_of(t))
}

/// `a` is ranked strictly above `b`: better winning percentage, or the same
/// percentage and more wins, or the same of both and a name that sorts first.
pub open spec fn ranks_above(a: Team, b: Team) -> bool {
    ||| pct_gt(a, b)
    ||| (pct_eq(a, b) && a.wins > b.wins)
    ||| (pct_eq(a, b) && a.wins == b.wins && bytes_lt(name_key(a), name_key(b)))
}

/// `a` and `b` tie on every ranking key.
pub open spec fn same_rank_key(a: Team, b: Team) -> bool {
    pct_eq(a, b) && a.wins == b.wins && name_key(a) == name_key(b)
}

proof fn lemma_pct_facts(a: Team, b: Team, c: Team)
    ensures
        pct_den(a) > 0,
        pct_num(a) >= 0,
        pct_gt(a, b) && pct_gt(b, c) ==> pct_gt(a, c),
        pct_gt(a, b) && pct_eq(b, c) ==> pct_gt(a, c),
        pct_eq(a, b) && pct_gt(b, c) ==> pct_gt(a, c),
        pct_eq(a, b) && pct_eq(b, c) ==> pct_eq(a, c),
        pct_gt(a, b) || pct_gt(b, a) || pct_eq(a, b),
        pct_gt(a, b) ==> !pct_gt(b, a) && !pct_eq(a, b),
        pct_eq(a, b) ==> pct_eq(b, a),
{
    let (na, da) = (pct_num(a), pct_den(a));
    let (nb, db) = (pct_num(b), pct_den(b));
    let (nc, dc) = (pct_num(c), pct_den(c));
    assert(da > 0 && db > 0 && dc > 0);
    assert(na * db > nb * da && nb * dc > nc * db ==> na * dc > nc * da) by (nonlinear_arith)
        requires da > 0, db > 0, dc > 0;
    assert(na * db > nb * da && nb * dc == nc * db ==> na * dc > nc * da) by (nonlinear_arith)
        requires da > 0, db > 0, dc > 0;
    assert(na * db == nb * da && nb * dc > nc * db ==> na * dc > nc * da) by (nonlinear_arith)
        requires da > 0, db > 0, dc > 0;
    assert(na * db == nb * da && nb * dc == nc * db ==> na * dc == nc * da) by (nonlinear_arith)
        requires da > 0, db > 0, dc > 0;
}

/// The ranking is a strict weak order: irreflexive and transitive, with
/// ties (incomparable teams) exactly the teams that agree on every key.
pub proof fn lemma_ranking_order(a: Team, b: Team, c: Team)
    ensures
        !ranks_above(a, a),
        ranks_above(a, b) && ranks_above(b, c) ==> ranks_above(a, c),
        !ranks_above(a, b) && !ranks_above(b, a) ==> same_rank_key(a, b),
        same_rank_key(a, b) ==> same_rank_key(b, a) && !ranks_above(a, b),
        ranks_above(a, b) && same_rank_key(b, c) ==> ranks_above(a, c),
        same_rank_key(a, b) && ranks_above(b, c) ==> ranks_above(a, c),
{
    lemma_pct_facts(a, b, c);
    lemma_pct_facts(a, a, a);
    lemma_pct_facts(b, a, c);
    lemma_pct_facts(a, c, b);
    lemma_bytes_lt_irreflexive(name_key(a));
    if bytes_lt(name_key(a), name_key(b)) && bytes_lt(name_key(b), name_key(c)) {
        lemma_bytes_lt_transitive(name_key(a), name_key(b), name_key(c));
    }
    if name_key(a) != name_key(b) {
        lemma_bytes_lt_total(name_key(a), name_key(b));
    }
}

/// Exact comparison of two teams in the ranking.
pub fn ranks_above_exec(a: &Team, b: &Team) -> (r: bool)
    ensures
        r == ranks_above(*a, *b),
{
    let ga: u64 = a.wins as u64 + a.losses as u64;
    let gb: u64 = b.wins as u64 + b.losses as u64;
    let (na, da): (u128, u128) = if ga == 0 { (0, 1) } else { (a.wins as u128, ga as u128) };
    let (nb, db): (u128, u128) = if gb == 0 { (0, 1) } else { (b.wins as u128, gb as u128) };
    assert(na * db <= 0xffff_ffff_ffff_ffff_ffff_ffff_ffff_ffff) by (nonlinear_arith)
        requires na <= 0xffff_ffff, db <= 0x1_ffff_ffff;
    assert(nb * da <= 0xffff_ffff_ffff_ffff_ffff_ffff_ffff_ffff) by (nonlinear_arith)
        requires nb <= 0xffff_ffff, da <= 0x1_ffff_ffff;
    let lhs = na * db;
    let rhs = nb * da;
    if lhs > rhs {
        return true;
    }
    if lhs < rhs {
        return false;
    }
    if a.wins != b.wins {
        return a.wins > b.wins;
    }
    let fa = a.full_name();
    let fb = b.full_name();
    bytes_less(fa.as_str().as_bytes(), fb.as_str().as_bytes())
}

// ---------------------------------------------------------------------------
// Standings order
// ---------------------------------------------------------------------------

/// `order` lists exactly the conference's teams (by index into `teams`), each
/// once, best first, with full ties left in team-table order.
pub open spec fn is_standings_order(teams: Seq<Team>, conf: Conference, order: Seq<usize>) -> bool {
    &&& forall|k: int| 0 <= k < order.len() ==> (#[trigger] order[k]) < teams.len()
        && teams[order[k] as int].conference == conf
    &&& forall|i: int| 0 <= i < teams.len() && (#[trigger] teams[i]).conference == conf
        ==> order.contains(i as usize)
    &&& forall|k1: int, k2: int| 0 <= k1 < order.len() && 0 <= k2 < order.len() && k1 != k2
        ==> order[k1] != order[k2]
    &&& forall|k1: int, k2: int| 0 <= k1 < k2 < order.len()
        ==> !ranks_above(teams[#[trigger] order[k2] as int], teams[#[trigger] order[k1] as int])
    &&& forall|k1: int, k2: int| 0 <= k1 < k2 < order.len()
        && same_rank_key(teams[#[trigger] order[k1] as int], teams[#[trigger] order[k2] as int])
        ==> order[k1] < order[k2]
}

/// Sorting invariant over the teams seen so far.
spec fn sorted_prefix(teams: Seq<Team>, conf: Conference, order: Seq<usize>, n: int) -> bool {
    &&& forall|k: int| 0 <= k < order.len() ==> (#[trigger] order[k]) < n
        && teams[order[k] as int].conference == conf
    &&& forall|i: int| 0 <= i < n && (#[trigger] teams[i]).conference == conf
        ==> order.contains(i as usize)
    &&& forall|k1: int, k2: int| 0 <= k1 < order.len() && 0 <= k2 < order.len() && k1 != k2
        ==> order[k1] != order[k2]
    &&& forall|k1: int, k2: int| 0 <= k1 < k2 < order.len()
        ==> !ranks_above(teams[#[trigger] order[k2] as int], teams[#[trigger] order[k1] as int])
    &&& forall|k1: int, k2: int| 0 <= k1 < k2 < order.len()
        && same_rank_key(teams[#[trigger] order[k1] as int], teams[#[trigger] order[k2] as int])
        ==> order[k1] < order[k2]
}

proof fn lemma_below_insertion(teams: Seq<Team>, s: Seq<usize>, n: int, p: int)
    requires
        0 <= n < teams.len(),
        forall|k: int| 0 <= k < s.len() ==> (#[trigger] s[k]) < n,
        forall|k1: int, k2: int| 0 <= k1 < k2 < s.len()
            ==> !ranks_above(teams[#[trigger] s[k2] as int], teams[#[trigger] s[k1] as int]),
        0 <= p <= s.len(),
        p < s.len() ==> ranks_above(teams[n], teams[s[p] as int]),
    ensures
        forall|k: int| p <= k < s.len() ==>
            !ranks_above(teams[#[trigger] s[k] as int], teams[n]) && !same_rank_key(teams[n], teams[s[k] as int]),
{
    let tx = teams[n];
    assert forall|k: int| p <= k < s.len() implies
        !ranks_above(teams[#[trigger] s[k] as int], tx) && !same_rank_key(tx, teams[s[k] as int]) by {
        let sp = teams[s[p] as int];
        let sk = teams[s[k] as int];
        lemma_ranking_order(tx, sp, sk);
        lemma_ranking_order(sk, tx, sp);
        lemma_ranking_order(sp, tx, sk);
        lemma_ranking_order(tx, sk, sp);
        if k > p {
            assert(!ranks_above(sk, sp));
        }
    }
}

proof fn lemma_insert_members(teams: Seq<Team>, conf: Conference, s: Seq<usize>, n: int, p: int)
    requires
        0 <= n < teams.len(),
        n < usize::MAX,
        teams[n].conference == conf,
        sorted_prefix(teams, conf, s, n),
        0 <= p <= s.len(),
    ensures
        forall|k: int| 0 <= k < s.insert(p, n as usize).len() ==> (#[trigger] s.insert(p, n as usize)[k]) < n + 1
            && teams[s.insert(p, n as usize)[k] as int].conference == conf,
        forall|i: int| 0 <= i < n + 1 && (#[trigger] teams[i]).conference == conf
            ==> s.insert(p, n as usize).contains(i as usize),
        forall|k1: int, k2: int| 0 <= k1 < s.insert(p, n as usize).len() && 0 <= k2 < s.insert(p, n as usize).len() && k1 != k2
            ==> #[trigger] s.insert(p, n as usize)[k1] != #[trigger] s.insert(p, n as usize)[k2],
{
    let x = n as usize;
    assert(x as int == n);
    let t = s.insert(p, x);
    assert forall|k: int| 0 <= k < t.len() implies (#[trigger] t[k]) < n + 1
        && teams[t[k] as int].conference == conf by {
        if k < p {
            assert(t[k] == s[k]);
        } else if k > p {
            assert(t[k] == s[k - 1]);
        } else {
            assert(t[k] == x);
        }
    }
    assert forall|i: int| 0 <= i < n + 1 && (#[trigger] teams[i]).conference == conf
        implies t.contains(i as usize) by {
        if i == n {
            assert(t[p] == x);
        } else {
            assert(s.contains(i as usize));
            let k = choose|k: int| 0 <= k < s.len() && s[k] == i as usize;
            if k < p {
                assert(t[k] == s[k]);
            } else {
                assert(t[k + 1] == s[k]);
            }
        }
    }
    assert forall|k1: int, k2: int| 0 <= k1 < t.len() && 0 <= k2 < t.len() && k1 != k2
        implies t[k1] != t[k2] by {
        let j1 = if k1 < p { k1 } else if k1 > p { k1 - 1 } else { -1 };
        let j2 = if k2 < p { k2 } else if k2 > p { k2 - 1 } else { -1 };
        if k1 == p {
            assert(t[k1] == x);
            assert(t[k2] == s[j2]);
            assert(s[j2] < n);
        } else if k2 == p {
            assert(t[k2] == x);
            assert(t[k1] == s[j1]);
            assert(s[j1] < n);
        } else {
            assert(t[k1] == s[j1]);
            assert(t[k2] == s[j2]);
            assert(j1 != j2);
        }
    }
}

#[verifier::spinoff_prover]
#[verifier::rlimit(40)]
proof fn lemma_insert_sorted(teams: Seq<Team>, conf: Conference, order: Seq<usize>, n: int, p: int)
    requires
        0 <= n < teams.len(),
        n < usize::MAX,
        teams[n].conference == conf,
        sorted_prefix(teams, conf, order, n),
        0 <= p <= order.len(),
        forall|k: int| 0 <= k < p ==> !ranks_above(teams[n], teams[#[trigger] order[k] as int]),
        p < order.len() ==> ranks_above(teams[n], teams[order[p] as int]),
    ensures
        sorted_prefix(teams, conf, order.insert(p, n as usize), n + 1),
{
    let x = n as usize;
    assert(x as int == n);
    let s = order;
    let t = order.insert(p, x);
    let tx = teams[n];
    lemma_below_insertion(teams, s, n, p);
    lemma_insert_members(teams, conf, s, n, p);
    assert forall|k1: int, k2: int| 0 <= k1 < k2 < t.len() implies
        !ranks_above(teams[#[trigger] t[k2] as int], teams[#[trigger] t[k1] as int]) by {
        if k2 < p {
            assert(t[k1] == s[k1] && t[k2] == s[k2]);
        } else if k2 == p {
            assert(t[k1] == s[k1]);
            assert(t[k2] == x);
            lemma_ranking_order(tx, teams[s[k1] as int], tx);
        } else if k1 < p {
            assert(t[k1] == s[k1] && t[k2] == s[k2 - 1]);
        } else if k1 == p {
            assert(t[k1] == x);
            assert(t[k2] == s[k2 - 1]);
        } else {
            assert(t[k1] == s[k1 - 1] && t[k2] == s[k2 - 1]);
        }
    }
    assert forall|k1: int, k2: int| 0 <= k1 < k2 < t.len()
        && same_rank_key(teams[#[trigger] t[k1] as int], teams[#[trigger] t[k2] as int])
        implies t[k1] < t[k2] by {
        if k2 < p {
            assert(t[k1] == s[k1] && t[k2] == s[k2]);
        } else if k2 == p {
            assert(t[k1] == s[k1]);
            assert(t[k2] == x);
            assert(s[k1] < n);
        } else if k1 < p {
            assert(t[k1] == s[k1] && t[k2] == s[k2 - 1]);
        } else if k1 == p {
            assert(t[k1] == x);
            assert(t[k2] == s[k2 - 1]);
            assert(!same_rank_key(tx, teams[s[k2 - 1] as int]));
        } else {
            assert(t[k1] == s[k1 - 1] && t[k2] == s[k2 - 1]);
        }
    }
}

/// The conference's teams (as indices into `teams`) in standings order.
pub fn standings_order(teams: &[Team], conf: Conference) -> (order: Vec<usize>)
    ensures
        is_standings_order(teams@, conf, order@),
{
    let mut order: Vec<usize> = Vec::new();
    let mut i: usize = 0;
    while i < teams.len()
        invariant
            i <= teams@.len(),
            sorted_prefix(teams@, conf, order@, i as int),
        decreases teams@.len() - i,
    {
        if teams[i].conference == conf {
            let mut p: usize = 0;
            while p < order.len() && !ranks_above_exec(&teams[i], &teams[order[p]])
                invariant
                    i < teams@.len(),
                    p <= order@.len(),
                    sorted_prefix(teams@, conf, order@, i as int),
                    forall|k: int| 0 <= k < p ==> !ranks_above(teams@[i as int], teams@[#[trigger] order@[k] as int]),
                decreases order@.len() - p,
            {
                p = p + 1;
            }
            proof {
                lemma_insert_sorted(teams@, conf, order@, i as int, p as int);
            }
            order.insert(p, i);
        } else {
            proof {
                assert forall|j: int| 0 <= j < i + 1 && (#[trigger] teams@[j]).conference == conf
                    implies order@.contains(j as usize) by {}
            }
        }
        i = i + 1;
    }
    order
}

/// Return the standings for one conference, best record first, seeded 1..=16.
pub fn conference_standings(teams: &[Team], conf: Conference) -> (rows: Vec<StandingsRow>)
    ensures
        exists|order: Seq<usize>| #[trigger] is_standings_order(teams@, conf, order)
            && rows@.len() == order.len()
            && forall|k: int| 0 <= k < order.len() ==> #[trigger] rows@[k] == (StandingsRow {
                seed: (k + 1) as u32,
                team_id: teams@[order[k] as int].id,
                wins: teams@[order[k] as int].wins,
                losses: teams@[order[k] as int].losses,
            }),
{
    let order = standings_order(teams, conf);
    let mut rows: Vec<StandingsRow> = Vec::new();
    let mut k: usize = 0;
    while k < order.len()
        invariant
            k <= order@.len(),
            is_standings_order(teams@, conf, order@),
            rows@.len() == k,
            forall|j: int| 0 <= j < k ==> #[trigger] rows@[j] == (StandingsRow {
                seed: (j + 1) as u32,
                team_id: teams@[order@[j] as int].id,
                wins: teams@[order@[j] as int].wins,
                losses: teams@[order@[j] as int].losses,
            }),
        decreases order@.len() - k,
    {
        let t = &teams[order[k]];
        rows.push(StandingsRow { seed: (k + 1) as u32, team_id: t.id, wins: t.wins, losses: t.losses });
        k = k + 1;
    }
    rows
}

/// The top-8 seeds of a conference (the playoff teams), in seed order.
pub fn playoff_seeds(teams: &[Team], conf: Conference) -> (seeds: Vec<TeamId>)
    ensures
        exists|order: Seq<usize>| #[trigger] is_standings_order(teams@, conf, order)
            && seeds@.len() == (if order.len() < 8 { order.len() } else { 8 })
            && forall|k: int| 0 <= k < seeds@.len() ==> #[trigger] seeds@[k] == teams@[order[k] as int].id,
{
    let order = standings_order(teams, conf);
    let mut seeds: Vec<TeamId> = Vec::new();
    let mut k: usize = 0;
    while k < order.len() && k < 8
        invariant
            k <= order@.len(),
            k <= 8,
            is_standings_order(teams@, conf, order@),
            seeds@.len() == k,
            forall|j: int| 0 <= j < k ==> #[trigger] seeds@[j] == teams@[order@[j] as int].id,
        decreases order@.len() - k,
    {
        seeds.push(teams[order[k]].id);
        k = k + 1;
    }
    seeds
}

// ---------------------------------------------------------------------------
// Worst record first (the order in which the draft is seeded)
// ---------------------------------------------------------------------------

/// `a` has the worse record: a lower winning percentage, or the same
/// percentage and fewer wins.
pub open spec fn worse_record(a: Team, b: Team) -> bool {
    pct_gt(b, a) || (pct_eq(a, b) && a.wins < b.wins)
}

/// `a` and `b` have the same winning percentage and the same wins.
pub open spec fn same_record(a: Team, b: Team) -> bool {
    pct_eq(a, b) && a.wins == b.wins
}

proof fn lemma_record_facts(a: Team, b: Team, c: Team)
    ensures
        !worse_record(a, a),
        worse_record(a, b) && worse_record(b, c) ==> worse_record(a, c),
        worse_record(a, b) && !worse_record(c, b) ==> worse_record(a, c),
        !worse_record(a, b) && !worse_record(b, a) <==> same_record(a, b),
        same_record(a, b) ==> same_record(b, a),
{
    lemma_pct_facts(a, b, c);
    lemma_pct_facts(b, a, c);
    lemma_pct_facts(c, b, a);
    lemma_pct_facts(a, c, b);
    lemma_pct_facts(b, c, a);
    lemma_pct_facts(a, a, a);
}

/// Exact comparison of two records.
pub fn worse_record_exec(a: &Team, b: &Team) -> (r: bool)
    ensures
        r == worse_record(*a, *b),
{
    let ga: u64 = a.wins as u64 + a.losses as u64;
    let gb: u64 = b.wins as u64 + b.losses as u64;
    let (na, da): (u128, u128) = if ga == 0 { (0, 1) } else { (a.wins as u128, ga as u128) };
    let (nb, db): (u128, u128) = if gb == 0 { (0, 1) } else { (b.wins as u128, gb as u128) };
    assert(na * db <= 0xffff_ffff_ffff_ffff_ffff_ffff_ffff_ffff) by (nonlinear_arith)
        requires na <= 0xffff_ffff, db <= 0x1_ffff_ffff;
    assert(nb * da <= 0xffff_ffff_ffff_ffff_ffff_ffff_ffff_ffff) by (nonlinear_arith)
        requires nb <= 0xffff_ffff, da <= 0x1_ffff_ffff;
    let lhs = na * db;
    let rhs = nb * da;
    if lhs != rhs {
        lhs < rhs
    } else {
        a.wins < b.wins
    }
}

/// `order` lists every index of `teams` once, worst record first, with teams
/// of the same record left in team-table order.
pub open spec fn is_record_order(teams: Seq<Team>, order: Seq<usize>) -> bool {
    &&& order.len() == teams.len()
    &&& forall|k: int| 0 <= k < order.len() ==> (#[trigger] order[k]) < teams.len()
    &&& forall|i: int| 0 <= i < teams.len() ==> #[trigger] order.contains(i as usize)
    &&& forall|k1: int, k2: int| 0 <= k1 < order.len() && 0 <= k2 < order.len() && k1 != k2
        ==> order[k1] != order[k2]
    &&& forall|k1: int, k2: int| 0 <= k1 < k2 < order.len()
        ==> !worse_record(teams[#[trigger] order[k2] as int], teams[#[trigger] order[k1] as int])
    &&& forall|k1: int, k2: int| 0 <= k1 < k2 < order.len()
        && same_record(teams[#[trigger] order[k1] as int], teams[#[trigger] order[k2] as int])
        ==> order[k1] < order[k2]
}

/// Sorting invariant over the first `n` teams.
spec fn record_prefix(teams: Seq<Team>, order: Seq<usize>, n: int) -> bool {
    &&& order.len() == n
    &&& forall|k: int| 0 <= k < order.len() ==> (#[trigger] order[k]) < n
    &&& forall|i: int| 0 <= i < n ==> #[trigger] order.contains(i as usize)
    &&& forall|k1: int, k2: int| 0 <= k1 < order.len() && 0 <= k2 < order.len() && k1 != k2
        ==> order[k1] != order[k2]
    &&& forall|k1: int, k2: int| 0 <= k1 < k2 < order.len()
        ==> !worse_record(teams[#[trigger] order[k2] as int], teams[#[trigger] order[k1] as int])
    &&& forall|k1: int, k2: int| 0 <= k1 < k2 < order.len()
        && same_record(teams[#[trigger] order[k1] as int], teams[#[trigger] order[k2] as int])
        ==> order[k1] < order[k2]
}

#[verifier::spinoff_prover]
#[verifier::rlimit(40)]
proof fn lemma_record_insert(teams: Seq<Team>, s: Seq<usize>, n: int, p: int)
    requires
        0 <= n < teams.len(),
        n < usize::MAX,
        record_prefix(teams, s, n),
        0 <= p <= s.len(),
        forall|k: int| 0 <= k < p ==> !worse_record(teams[n], teams[#[trigger] s[k] as int]),
        p < s.len() ==> worse_record(teams[n], teams[s[p] as int]),
    ensures
        record_prefix(teams, s.insert(p, n as usize), n + 1),
{
    let x = n as usize;
    assert(x as int == n);
    let t = s.insert(p, x);
    let tx = teams[n];
    assert forall|k: int| p <= k < s.len() implies worse_record(tx, teams[#[trigger] s[k] as int]) by {
        if k > p {
            lemma_record_facts(tx, teams[s[p] as int], teams[s[k] as int]);
        }
    }
    assert forall|k: int| 0 <= k < t.len() implies (#[trigger] t[k]) < n + 1 by {
        if k < p { assert(t[k] == s[k]); } else if k > p { assert(t[k] == s[k - 1]); } else { assert(t[k] == x); }
    }
    assert forall|i: int| 0 <= i < n + 1 implies #[trigger] t.contains(i as usize) by {
        if i == n {
            assert(t[p] == x);
        } else {
            assert(s.contains(i as usize));
            let k = choose|k: int| 0 <= k < s.len() && s[k] == i as usize;
            if k < p {
                assert(t[k] == s[k]);
            } else {
                assert(t[k + 1] == s[k]);
            }
        }
    }
    assert forall|k1: int, k2: int| 0 <= k1 < t.len() && 0 <= k2 < t.len() && k1 != k2
        implies t[k1] != t[k2] by {
        let j1 = if k1 < p { k1 } else { k1 - 1 };
        let j2 = if k2 < p { k2 } else { k2 - 1 };
        if k1 == p {
            assert(t[k1] == x && t[k2] == s[j2] && s[j2] < n);
        } else if k2 == p {
            assert(t[k2] == x && t[k1] == s[j1] && s[j1] < n);
        } else {
            assert(t[k1] == s[j1] && t[k2] == s[j2] && j1 != j2);
        }
    }
    assert forall|k1: int, k2: int| 0 <= k1 < k2 < t.len() implies
        !worse_record(teams[#[trigger] t[k2] as int], teams[#[trigger] t[k1] as int]) by {
        if k2 < p {
            assert(t[k1] == s[k1] && t[k2] == s[k2]);
        } else if k2 == p {
            assert(t[k1] == s[k1] && t[k2] == x);
        } else if k1 < p {
            assert(t[k1] == s[k1] && t[k2] == s[k2 - 1]);
            lemma_record_facts(teams[s[k2 - 1] as int], tx, teams[s[k1] as int]);
        } else if k1 == p {
            assert(t[k1] == x && t[k2] == s[k2 - 1]);
            lemma_record_facts(tx, teams[s[k2 - 1] as int], tx);
        } else {
            assert(t[k1] == s[k1 - 1] && t[k2] == s[k2 - 1]);
        }
    }
    assert forall|k1: int, k2: int| 0 <= k1 < k2 < t.len()
        && same_record(teams[#[trigger] t[k1] as int], teams[#[trigger] t[k2] as int])
        implies t[k1] < t[k2] by {
        if k2 < p {
            assert(t[k1] == s[k1] && t[k2] == s[k2]);
        } else if k2 == p {
            assert(t[k1] == s[k1] && t[k2] == x && s[k1] < n);
        } else if k1 < p {
            assert(t[k1] == s[k1] && t[k2] == s[k2 - 1]);
        } else if k1 == p {
            assert(t[k1] == x && t[k2] == s[k2 - 1]);
            lemma_record_facts(tx, teams[s[k2 - 1] as int], tx);
        } else {
            assert(t[k1] == s[k1 - 1] && t[k2] == s[k2 - 1]);
        }
    }
}

/// Every team (as an index into `teams`), worst record first.
pub fn record_order(teams: &[Team]) -> (order: Vec<usize>)
    ensures
        is_record_order(teams@, order@),
{
    let mut order: Vec<usize> = Vec::new();
    let mut i: usize = 0;
    while i < teams.len()
        invariant
            i <= teams@.len(),
            record_prefix(teams@, order@, i as int),
        decreases teams@.len() - i,
    {
        let mut p: usize = 0;
        while p < order.len() && !worse_record_exec(&teams[i], &teams[order[p]])
            invariant
                i < teams@.len(),
                p <= order@.len(),
                record_prefix(teams@, order@, i as int),
                forall|k: int| 0 <= k < p ==> !worse_record(teams@[i as int], teams@[#[trigger] order@[k] as int]),
            decreases order@.len() - p,
        {
            p = p + 1;
        }
        proof {
            lemma_record_insert(teams@, order@, i as int, p as int);
        }
        order.insert(p, i);
        i = i + 1;
    }
    order
}

} // verus!
