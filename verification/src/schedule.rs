//! Regular-season schedule generation.
//!
//! 32 teams, 82 games each. We use the classic round-robin "circle method"
//! to build rounds where every team plays exactly once. Layering rounds gives
//! a balanced 82-game season with no team playing twice on the same day:
//!
//!   * Pass A: full single round-robin (31 days) — play everyone once.
//!   * Pass B: the same 31 rounds with home/away swapped (31 days).
//!   * Pass C: the first 20 rounds again (20 days) to reach 82.
//!
//! 31 + 31 + 20 = 82 games per team.

use vstd::prelude::*;
use rand::rngs::StdRng;
use crate::rng::rng_shuffle;
use crate::types::TeamId;

verus! {

/// The outcome of a played game.
#[derive(Debug, Clone, Copy)]
pub struct GameResult {
    pub home_score: u32,
    pub away_score: u32,
}

impl GameResult {
    pub fn home_won(&self) -> (b: bool)
        ensures
            b == (self.home_score > self.away_score),
    {
        self.home_score > self.away_score
    }
}

/// A single scheduled game on a given day (0-based).
#[derive(Debug, Clone, Copy)]
pub struct Game {
    pub day: u32,
    pub home: TeamId,
    pub away: TeamId,
    pub result: Option<GameResult>,
}

impl Game {
    pub fn is_played(&self) -> (b: bool)
        ensures
            b == self.result is Some,
    {
        self.result.is_some()
    }
}

/// No id occurs twice.
pub open spec fn distinct_ids(s: Seq<TeamId>) -> bool {
    forall|i: int, j: int| 0 <= i < s.len() && 0 <= j < s.len() && i != j ==> s[i] != s[j]
}

/// One turn of the circle: the first team stays put and everyone else moves
/// one seat along (the last seat wraps round to the second).
pub open spec fn circle_step(s: Seq<TeamId>) -> Seq<TeamId> {
    seq![s[0], s[s.len() - 1]] + s.subrange(1, s.len() - 1)
}

/// The seating after `r` turns of the circle.
pub open spec fn circle(s: Seq<TeamId>, r: nat) -> Seq<TeamId>
    decreases r,
{
    if r == 0 {
        s
    } else {
        circle_step(circle(s, (r - 1) as nat))
    }
}

/// The `i`-th pairing of round `r`: the seat `i` against the seat opposite it.
pub open spec fn round_pair(s: Seq<TeamId>, r: nat, i: int) -> (TeamId, TeamId) {
    (circle(s, r)[i], circle(s, r)[s.len() - 1 - i])
}

proof fn lemma_circle_step(s: Seq<TeamId>)
    requires
        s.len() >= 2,
    ensures
        circle_step(s).len() == s.len(),
        distinct_ids(s) ==> distinct_ids(circle_step(s)),
        forall|t: TeamId| s.contains(t) <==> circle_step(s).contains(t),
{
    let c = circle_step(s);
    let n = s.len() as int;
    assert(c.len() == n);
    assert forall|k: int| 2 <= k < n implies c[k] == s[k - 1] by {}
    assert(c[0] == s[0]);
    assert(c[1] == s[n - 1]);
    if distinct_ids(s) {
        assert forall|i: int, j: int| 0 <= i < n && 0 <= j < n && i != j implies c[i] != c[j] by {
            let fi = if i == 0 { 0 } else if i == 1 { n - 1 } else { i - 1 };
            let fj = if j == 0 { 0 } else if j == 1 { n - 1 } else { j - 1 };
            assert(c[i] == s[fi]);
            assert(c[j] == s[fj]);
        }
    }
    assert forall|t: TeamId| s.contains(t) <==> c.contains(t) by {
        if s.contains(t) {
            let p = choose|p: int| 0 <= p < n && s[p] == t;
            let q = if p == 0 { 0 } else if p == n - 1 { 1 } else { p + 1 };
            assert(c[q] == t);
        }
        if c.contains(t) {
            let q = choose|q: int| 0 <= q < n && c[q] == t;
            let p = if q == 0 { 0 } else if q == 1 { n - 1 } else { q - 1 };
            assert(s[p] == t);
        }
    }
}

/// Every seating of the circle is a rearrangement of the original seating.
pub proof fn lemma_circle(s: Seq<TeamId>, r: nat)
    requires
        s.len() >= 2,
    ensures
        circle(s, r).len() == s.len(),
        distinct_ids(s) ==> distinct_ids(circle(s, r)),
        forall|t: TeamId| s.contains(t) <==> circle(s, r).contains(t),
    decreases r,
{
    if r > 0 {
        lemma_circle(s, (r - 1) as nat);
        lemma_circle_step(circle(s, (r - 1) as nat));
    }
}

/// Generate the `n - 1` round-robin rounds for the given team ids using the
/// circle method. Each round is a list of (home, away) pairs, seat `i` hosting
/// the seat opposite it.
pub fn round_robin_rounds(team_ids: &[TeamId]) -> (rounds: Vec<Vec<(TeamId, TeamId)>>)
    requires
        team_ids@.len() >= 2,
        team_ids@.len() % 2 == 0,
    ensures
        rounds@.len() == team_ids@.len() - 1,
        forall|r: int| 0 <= r < rounds@.len() ==> #[trigger] rounds@[r]@.len() == team_ids@.len() / 2,
        forall|r: int, i: int| 0 <= r < rounds@.len() && 0 <= i < team_ids@.len() / 2
            ==> #[trigger] rounds@[r]@[i] == round_pair(team_ids@, r as nat, i),
{
    let n = team_ids.len();
    let ghost s = team_ids@;
    let mut ids: Vec<TeamId> = Vec::new();
    let mut k: usize = 0;
    while k < n
        invariant
            k <= n,
            n == s.len(),
            s == team_ids@,
            ids@ == s.take(k as int),
        decreases n - k,
    {
        ids.push(team_ids[k]);
        k = k + 1;
        assert(ids@ =~= s.take(k as int));
    }
    assert(s.take(n as int) =~= s);
    let mut rounds: Vec<Vec<(TeamId, TeamId)>> = Vec::new();
    let mut r: usize = 0;
    while r < n - 1
        invariant
            n == s.len(),
            n >= 2,
            n % 2 == 0,
            r <= n - 1,
            ids@ == circle(s, r as nat),
            rounds@.len() == r,
            forall|q: int| 0 <= q < r ==> #[trigger] rounds@[q]@.len() == n / 2,
            forall|q: int, i: int| 0 <= q < r && 0 <= i < n / 2
                ==> #[trigger] rounds@[q]@[i] == round_pair(s, q as nat, i),
        decreases n - 1 - r,
    {
        proof {
            lemma_circle(s, r as nat);
        }
        let mut round: Vec<(TeamId, TeamId)> = Vec::new();
        let mut i: usize = 0;
        while i < n / 2
            invariant
                n == s.len(),
                ids@.len() == n,
                ids@ == circle(s, r as nat),
                i <= n / 2,
                round@.len() == i,
                forall|j: int| 0 <= j < i ==> #[trigger] round@[j] == round_pair(s, r as nat, j),
            decreases n / 2 - i,
        {
            round.push((ids[i], ids[n - 1 - i]));
            i = i + 1;
        }
        rounds.push(round);
        // Turn the circle: everyone but the first seat moves one place.
        let mut next: Vec<TeamId> = Vec::new();
        next.push(ids[0]);
        next.push(ids[n - 1]);
        let mut j: usize = 1;
        while j < n - 1
            invariant
                n == s.len(),
                n >= 2,
                ids@.len() == n,
                1 <= j <= n - 1,
                next@ == seq![ids@[0], ids@[n - 1]] + ids@.subrange(1, j as int),
            decreases n - 1 - j,
        {
            next.push(ids[j]);
            j = j + 1;
            assert(next@ =~= seq![ids@[0], ids@[n - 1]] + ids@.subrange(1, j as int));
        }
        assert(next@ =~= circle_step(ids@));
        ids = next;
        r = r + 1;
    }
    rounds
}

/// Which round-robin round is played on a given day, and whether home and
/// away are swapped: days 0..31 are pass A, 31..62 pass B (swapped), 62..82
/// the first 20 rounds again.
pub open spec fn day_round(day: int) -> (nat, bool) {
    if day < 31 {
        (day as nat, false)
    } else if day < 62 {
        ((day - 31) as nat, true)
    } else {
        ((day - 62) as nat, false)
    }
}

/// The `k`-th game of the season built from the seating `s`.
pub open spec fn scheduled_game(s: Seq<TeamId>, k: int) -> Game {
    let day = k / 16;
    let i = k % 16;
    let (r, swap) = day_round(day);
    let (a, b) = round_pair(s, r, i);
    Game {
        day: day as u32,
        home: if swap { b } else { a },
        away: if swap { a } else { b },
        result: None,
    }
}

/// The full 82-day season built from the seating `s`.
pub open spec fn season_from(s: Seq<TeamId>) -> Seq<Game> {
    Seq::new(1312, |k: int| scheduled_game(s, k))
}

/// Does some game of the list fall on day `d` and involve the team?
pub open spec fn plays_on(games: Seq<Game>, d: int, t: TeamId) -> bool {
    exists|k: int| 0 <= k < games.len() && #[trigger] games[k].day == d && involves(games[k], t)
}

/// Does the game involve the team?
pub open spec fn involves(g: Game, t: TeamId) -> bool {
    g.home == t || g.away == t
}

/// Build the full 82-game schedule for the given teams: the ids are shuffled
/// (so each save's schedule differs) and seated round the circle.
pub fn generate_schedule(team_ids: &[TeamId], rng: &mut StdRng) -> (games: Vec<Game>)
    requires
        team_ids@.len() == 32,
    ensures
        exists|s: Seq<TeamId>|
            #![trigger season_from(s)]
            s.len() == 32 && s.to_multiset() == team_ids@.to_multiset() && games@ == season_from(s),
        // With distinct teams: each of them plays 82 games, nobody else any,
        // and no team plays twice on one day.
        distinct_ids(team_ids@) ==> forall|t: TeamId| #[trigger] games_of(games@, t)
            == (if team_ids@.contains(t) { 82nat } else { 0nat }),
        distinct_ids(team_ids@) ==> forall|t: TeamId, k1: int, k2: int|
            0 <= k1 < games@.len() && 0 <= k2 < games@.len() && games@[k1].day == games@[k2].day
            && #[trigger] involves(games@[k1], t) && #[trigger] involves(games@[k2], t) ==> k1 == k2,
{
    let mut ids: Vec<TeamId> = Vec::new();
    let mut k: usize = 0;
    while k < team_ids.len()
        invariant
            k <= team_ids@.len(),
            ids@ == team_ids@.take(k as int),
        decreases team_ids@.len() - k,
    {
        ids.push(team_ids[k]);
        k = k + 1;
        assert(ids@ =~= team_ids@.take(k as int));
    }
    assert(team_ids@.take(32) =~= team_ids@);
    rng_shuffle(&mut ids, rng);
    let ghost s = ids@;

    let rounds = round_robin_rounds(ids.as_slice());
    let mut games: Vec<Game> = Vec::new();
    let mut day: u32 = 0;
    while day < 82
        invariant
            s.len() == 32,
            rounds@.len() == 31,
            forall|r: int| 0 <= r < 31 ==> #[trigger] rounds@[r]@.len() == 16,
            forall|r: int, i: int| 0 <= r < 31 && 0 <= i < 16
                ==> #[trigger] rounds@[r]@[i] == round_pair(s, r as nat, i),
            day <= 82,
            games@.len() == 16 * day,
            forall|j: int| 0 <= j < games@.len() ==> #[trigger] games@[j] == scheduled_game(s, j),
        decreases 82 - day,
    {
        let (r, swap): (usize, bool) = if day < 31 {
            (day as usize, false)
        } else if day < 62 {
            ((day - 31) as usize, true)
        } else {
            ((day - 62) as usize, false)
        };
        let round = &rounds[r];
        let mut i: usize = 0;
        while i < 16
            invariant
                s.len() == 32,
                0 <= r < 31,
                (r as nat, swap) == day_round(day as int),
                round@ == rounds@[r as int]@,
                round@.len() == 16,
                forall|q: int| 0 <= q < 16 ==> #[trigger] round@[q] == round_pair(s, r as nat, q),
                day < 82,
                i <= 16,
                games@.len() == 16 * day + i,
                forall|j: int| 0 <= j < games@.len() ==> #[trigger] games@[j] == scheduled_game(s, j),
            decreases 16 - i,
        {
            let (a, b) = round[i];
            let (home, away) = if swap { (b, a) } else { (a, b) };
            proof {
                let kk = 16 * day + i;
                assert(kk / 16 == day as int && kk % 16 == i as int) by (nonlinear_arith)
                    requires
                        kk == 16 * day + i,
                        0 <= i < 16,
                        0 <= day,
                ;
            }
            games.push(Game { day, home, away, result: None });
            i = i + 1;
        }
        day = day + 1;
    }
    assert(games@ =~= season_from(s));
    proof {
        if distinct_ids(team_ids@) {
            lemma_permuted_distinct(team_ids@, s);
            lemma_season_balanced(s);
            assert forall|t: TeamId| #[trigger] games_of(games@, t)
                == (if team_ids@.contains(t) { 82nat } else { 0nat }) by {
                lemma_games_per_team(s, t);
            }
        }
    }
    games
}

/// A rearrangement of distinct ids is distinct and holds the same ids.
proof fn lemma_permuted_distinct(a: Seq<TeamId>, b: Seq<TeamId>)
    requires
        distinct_ids(a),
        a.to_multiset() == b.to_multiset(),
    ensures
        distinct_ids(b),
        forall|t: TeamId| a.contains(t) <==> b.contains(t),
{
    broadcast use vstd::seq_lib::group_to_multiset_ensures;
    assert(a.no_duplicates());
    a.lemma_multiset_has_no_duplicates();
    b.lemma_multiset_has_no_duplicates_conv();
    assert forall|t: TeamId| a.contains(t) <==> b.contains(t) by {
        assert(a.contains(t) <==> a.to_multiset().count(t) > 0);
        assert(b.contains(t) <==> b.to_multiset().count(t) > 0);
    }
}

/// A season built from 32 distinct teams is balanced: every game is played
/// between two different teams on one of the 82 days, and on each of those
/// days every team plays exactly one game. So every team plays exactly 82
/// games and nobody plays twice on a day.
pub proof fn lemma_season_balanced(s: Seq<TeamId>)
    requires
        s.len() == 32,
        distinct_ids(s),
    ensures
        season_from(s).len() == 1312,
        forall|k: int| 0 <= k < 1312 ==> (#[trigger] season_from(s)[k]).day < 82
            && season_from(s)[k].home != season_from(s)[k].away
            && s.contains(season_from(s)[k].home) && s.contains(season_from(s)[k].away),
        forall|d: int, t: TeamId| 0 <= d < 82 && s.contains(t) ==> #[trigger] plays_on(season_from(s), d, t),
        forall|t: TeamId, k1: int, k2: int|
            0 <= k1 < 1312 && 0 <= k2 < 1312
            && season_from(s)[k1].day == season_from(s)[k2].day
            && #[trigger] involves(season_from(s)[k1], t) && #[trigger] involves(season_from(s)[k2], t)
            ==> k1 == k2,
{
    let g = season_from(s);
    assert forall|k: int| 0 <= k < 1312 implies (#[trigger] g[k]).day < 82
        && g[k].home != g[k].away && s.contains(g[k].home) && s.contains(g[k].away) by {
        let d = k / 16;
        let i = k % 16;
        assert(0 <= d < 82 && 0 <= i < 16) by (nonlinear_arith) requires 0 <= k < 1312, d == k / 16, i == k % 16;
        let (r, swap) = day_round(d);
        lemma_circle(s, r);
        let c = circle(s, r);
        assert(c[i] != c[31 - i]);
        assert(s.contains(c[i]));
        assert(s.contains(c[31 - i]));
    }
    assert forall|d: int, t: TeamId| 0 <= d < 82 && s.contains(t) implies #[trigger] plays_on(g, d, t) by {
        let (r, swap) = day_round(d);
        lemma_circle(s, r);
        let c = circle(s, r);
        let q = choose|q: int| 0 <= q < 32 && c[q] == t;
        let i = if q < 16 { q } else { 31 - q };
        let k = 16 * d + i;
        assert(k / 16 == d && k % 16 == i) by (nonlinear_arith) requires k == 16 * d + i, 0 <= i < 16, 0 <= d;
        assert(0 <= k < 1312);
        assert(g[k] == scheduled_game(s, k));
        assert(involves(g[k], t));
    }
    assert forall|t: TeamId, k1: int, k2: int|
        0 <= k1 < 1312 && 0 <= k2 < 1312
        && g[k1].day == g[k2].day
        && #[trigger] involves(g[k1], t) && #[trigger] involves(g[k2], t) implies k1 == k2 by {
        let d1 = k1 / 16;
        let d2 = k2 / 16;
        let i1 = k1 % 16;
        let i2 = k2 % 16;
        assert(0 <= d1 < 82 && 0 <= i1 < 16 && k1 == 16 * d1 + i1) by (nonlinear_arith) requires 0 <= k1 < 1312, d1 == k1 / 16, i1 == k1 % 16;
        assert(0 <= d2 < 82 && 0 <= i2 < 16 && k2 == 16 * d2 + i2) by (nonlinear_arith) requires 0 <= k2 < 1312, d2 == k2 / 16, i2 == k2 % 16;
        assert(g[k1].day == d1 as u32);
        assert(g[k2].day == d2 as u32);
        assert(d1 == d2);
        let (r, swap) = day_round(d1);
        lemma_circle(s, r);
        let c = circle(s, r);
        // t sits in seat i1 or its opposite, and in seat i2 or its opposite.
        let p1 = if c[i1] == t { i1 } else { 31 - i1 };
        let p2 = if c[i2] == t { i2 } else { 31 - i2 };
        assert(c[p1] == t);
        assert(c[p2] == t);
        assert(p1 == p2);
    }
}

/// How many games of the list involve the team.
pub open spec fn games_of(games: Seq<Game>, t: TeamId) -> nat
    decreases games.len(),
{
    if games.len() == 0 {
        0
    } else {
        games_of(games.drop_last(), t) + if involves(games.last(), t) { 1nat } else { 0nat }
    }
}

proof fn lemma_games_of_concat(a: Seq<Game>, b: Seq<Game>, t: TeamId)
    ensures
        games_of(a + b, t) == games_of(a, t) + games_of(b, t),
    decreases b.len(),
{
    if b.len() == 0 {
        assert(a + b =~= a);
    } else {
        assert((a + b).drop_last() =~= a + b.drop_last());
        assert((a + b).last() == b.last());
        lemma_games_of_concat(a, b.drop_last(), t);
    }
}

proof fn lemma_games_of_single(s: Seq<Game>, t: TeamId, i: int)
    requires
        0 <= i < s.len(),
        involves(s[i], t),
        forall|j: int| 0 <= j < s.len() && j != i ==> !involves(#[trigger] s[j], t),
    ensures
        games_of(s, t) == 1,
    decreases s.len(),
{
    if i == s.len() - 1 {
        lemma_games_of_none(s.drop_last(), t);
    } else {
        assert forall|j: int| 0 <= j < s.drop_last().len() && j != i implies !involves(#[trigger] s.drop_last()[j], t) by {
            assert(s.drop_last()[j] == s[j]);
        }
        assert(!involves(s[s.len() - 1], t));
        lemma_games_of_single(s.drop_last(), t, i);
    }
}

proof fn lemma_games_of_none(s: Seq<Game>, t: TeamId)
    requires
        forall|j: int| 0 <= j < s.len() ==> !involves(#[trigger] s[j], t),
    ensures
        games_of(s, t) == 0,
    decreases s.len(),
{
    if s.len() > 0 {
        assert forall|j: int| 0 <= j < s.drop_last().len() implies !involves(#[trigger] s.drop_last()[j], t) by {
            assert(s.drop_last()[j] == s[j]);
        }
        assert(!involves(s[s.len() - 1], t));
        lemma_games_of_none(s.drop_last(), t);
    }
}

proof fn lemma_games_prefix(s: Seq<TeamId>, t: TeamId, d: int)
    requires
        s.len() == 32,
        distinct_ids(s),
        s.contains(t),
        0 <= d <= 82,
    ensures
        games_of(season_from(s).take(16 * d), t) == d,
    decreases d,
{
    let g = season_from(s);
    if d == 0 {
        assert(g.take(0) =~= Seq::<Game>::empty());
    } else {
        let e = d - 1;
        lemma_games_prefix(s, t, e);
        lemma_season_balanced(s);
        let block = g.subrange(16 * e, 16 * e + 16);
        assert(g.take(16 * d) =~= g.take(16 * e) + block);
        lemma_games_of_concat(g.take(16 * e), block, t);
        assert(plays_on(g, e, t));
        let k = choose|k: int| 0 <= k < g.len() && #[trigger] g[k].day == e && involves(g[k], t);
        assert(g[k] == scheduled_game(s, k));
        assert(k / 16 < 82) by (nonlinear_arith) requires 0 <= k < 1312;
        assert(g[k].day == (k / 16) as u32);
        assert(k / 16 == e);
        assert(16 * e <= k < 16 * e + 16) by (nonlinear_arith) requires k / 16 == e, 0 <= k;
        let i = k - 16 * e;
        assert(block[i] == g[k]);
        assert forall|j: int| 0 <= j < block.len() && j != i implies !involves(#[trigger] block[j], t) by {
            let kj = 16 * e + j;
            assert(block[j] == g[kj]);
            assert(g[kj] == scheduled_game(s, kj));
            assert(kj / 16 == e) by (nonlinear_arith) requires kj == 16 * e + j, 0 <= j < 16, 0 <= e;
            assert(g[kj].day == (kj / 16) as u32);
            if involves(g[kj], t) {
                assert(g[kj].day == g[k].day);
            }
        }
        lemma_games_of_single(block, t, i);
    }
}

/// In a season built from 32 distinct teams, every one of them plays
/// exactly 82 games, and a team outside the seating plays none.
pub proof fn lemma_games_per_team(s: Seq<TeamId>, t: TeamId)
    requires
        s.len() == 32,
        distinct_ids(s),
    ensures
        s.contains(t) ==> games_of(season_from(s), t) == 82,
        !s.contains(t) ==> games_of(season_from(s), t) == 0,
{
    lemma_season_balanced(s);
    let g = season_from(s);
    if s.contains(t) {
        lemma_games_prefix(s, t, 82);
        assert(g.take(16 * 82int) =~= g);
    } else {
        assert forall|j: int| 0 <= j < g.len() implies !involves(#[trigger] g[j], t) by {
            assert(s.contains(g[j].home) && s.contains(g[j].away));
        }
        lemma_games_of_none(g, t);
    }
}

} // verus!
