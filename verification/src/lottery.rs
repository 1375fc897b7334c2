//! Seeding the draft: the teams that missed the playoffs go through a lottery
//! weighted toward the worst records, then the playoff teams pick, worst
//! record first.
//!
//! The worst lottery team holds as many tickets as there are lottery teams,
//! the next one fewer, down to one for the best. Each draw takes a uniform
//! number in `[0, 1)` (53 bits of a 64-bit word, as `rand` builds it),
//! scales it by the tickets left, in double precision, and lands on the
//! first team whose running count of tickets reaches that point; that team
//! leaves the pool with its tickets.

use vstd::prelude::*;
use vstd::multiset::Multiset;
use vstd::seq_lib::seq_to_set_is_finite;
use vstd::set_lib::{lemma_int_range, lemma_len_subset, set_int_range};
use rand::rngs::StdRng;
use crate::league::League;
use crate::rng::rng_word;
use crate::binary64::{lemma_nearest_double_close, nearest_double, nearest_double_exec};
use crate::standings::{is_record_order, is_standings_order, playoff_seeds, record_order};
use crate::team::Team;
use crate::types::{Conference, TeamId};

verus! {

broadcast use vstd::seq_lib::group_to_multiset_ensures;

// ---------------------------------------------------------------------------
// Weighted draws
// ---------------------------------------------------------------------------

/// The sum of the first `n` weights.
pub open spec fn weight_prefix(w: Seq<u32>, n: int) -> int
    decreases n,
{
    if n <= 0 { 0 } else { weight_prefix(w, n - 1) + w[n - 1] }
}

/// The sum of all the weights.
pub open spec fn weight_total(w: Seq<u32>) -> int {
    weight_prefix(w, w.len() as int)
}

proof fn lemma_prefix_monotone(w: Seq<u32>, i: int, j: int)
    requires
        0 <= i <= j,
    ensures
        weight_prefix(w, i) <= weight_prefix(w, j),
    decreases j - i,
{
    if i < j {
        lemma_prefix_monotone(w, i, j - 1);
    }
}

proof fn lemma_prefix_push(w: Seq<u32>, x: u32, n: int)
    requires
        0 <= n <= w.len(),
    ensures
        weight_prefix(w.push(x), n) == weight_prefix(w, n),
    decreases n,
{
    if n > 0 {
        lemma_prefix_push(w, x, n - 1);
    }
}

proof fn lemma_prefix_remove(w: Seq<u32>, idx: int, n: int)
    requires
        0 <= idx < w.len(),
        0 <= n < w.len(),
    ensures
        n <= idx ==> weight_prefix(w.remove(idx), n) == weight_prefix(w, n),
        n > idx ==> weight_prefix(w.remove(idx), n) == weight_prefix(w, n + 1) - w[idx],
    decreases n,
{
    if n > 0 {
        lemma_prefix_remove(w, idx, n - 1);
        let r = w.remove(idx);
        assert(weight_prefix(r, n) == weight_prefix(r, n - 1) + r[n - 1]);
        if n - 1 < idx {
            assert(r[n - 1] == w[n - 1]);
        } else if n - 1 == idx {
            assert(r[n - 1] == w[n]);
            assert(weight_prefix(w, n + 1) == weight_prefix(w, n) + w[n]);
        } else {
            assert(r[n - 1] == w[n]);
            assert(weight_prefix(w, n + 1) == weight_prefix(w, n) + w[n]);
        }
    }
}

/// 2^60: one ticket, in the units (2^-60) of `binary64`.
pub open spec fn one_ticket() -> int {
    1_152_921_504_606_846_976
}

/// Where a draw lands among `total` tickets: the uniform number built from
/// the word (its top 53 bits over 2^53) times `total`, rounded to a double,
/// in units of 2^-60.
pub open spec fn landing(word: u64, total: int) -> int {
    nearest_double((word / 2048) * total * 128, 1)
}

/// The first slot from `k` on whose running total of tickets reaches the
/// landing point `l` (`w.len()` when none does).
pub open spec fn pick_from(w: Seq<u32>, l: int, k: int) -> int
    decreases w.len() - k,
{
    if k < 0 || k >= w.len() {
        w.len() as int
    } else if weight_prefix(w, k + 1) * one_ticket() >= l {
        k
    } else {
        pick_from(w, l, k + 1)
    }
}

/// The slot a draw lands in (the first slot if, by rounding, none is
/// reached).
pub open spec fn pick_slot(w: Seq<u32>, word: u64) -> int {
    let p = pick_from(w, landing(word, weight_total(w)), 0);
    if p < w.len() { p } else { 0 }
}

/// The slot a draw lands in (see `pick_slot`).
pub fn lottery_index(weights: &Vec<u32>, word: u64) -> (idx: usize)
    requires
        weights@.len() > 0,
        weight_total(weights@) <= 1024,
    ensures
        idx == pick_slot(weights@, word),
        idx < weights@.len(),
{
    let mut total: u64 = 0;
    let mut i: usize = 0;
    while i < weights.len()
        invariant
            i <= weights@.len(),
            total == weight_prefix(weights@, i as int),
            weight_total(weights@) <= 1024,
        decreases weights@.len() - i,
    {
        proof {
            lemma_prefix_monotone(weights@, i + 1, weights@.len() as int);
        }
        total = total + weights[i] as u64;
        i = i + 1;
    }
    let m: u64 = word / 2048;
    assert((m as u128) * (total as u128) * 128 < 0x10_0000_0000_0000_0000_0000_0000) by (nonlinear_arith)
        requires m < 0x20_0000_0000_0000, total <= 1024;
    let l = nearest_double_exec(m as u128 * total as u128 * 128, 1);
    let ghost lv = landing(word, weight_total(weights@));
    assert(l == lv);
    let mut acc: u128 = 0;
    let mut k: usize = 0;
    while k < weights.len()
        invariant
            k <= weights@.len(),
            acc == weight_prefix(weights@, k as int),
            weight_total(weights@) <= 1024,
            pick_from(weights@, lv, 0) == pick_from(weights@, lv, k as int),
            l == lv,
            lv == landing(word, weight_total(weights@)),
        decreases weights@.len() - k,
    {
        proof {
            lemma_prefix_monotone(weights@, k + 1, weights@.len() as int);
        }
        acc = acc + weights[k] as u128;
        assert(acc == weight_prefix(weights@, k + 1));
        if acc * 1_152_921_504_606_846_976 >= l {
            assert(pick_from(weights@, lv, k as int) == k);
            assert(pick_from(weights@, lv, 0) == k);
            assert(pick_from(weights@, landing(word, weight_total(weights@)), 0) == k);
            return k;
        }
        k = k + 1;
    }
    0
}

// ---------------------------------------------------------------------------
// The lottery, draw by draw
// ---------------------------------------------------------------------------

/// The ticket weights of a lottery pool of `n` teams, worst record first:
/// `n` for the worst, down to 1 for the best.
pub open spec fn lottery_weights(n: nat) -> Seq<u32> {
    Seq::new(n, |i: int| (n - i) as u32)
}

/// The weights left after a run of draws: each draw removes the slot it
/// lands in.
pub open spec fn weights_after(w0: Seq<u32>, draws: Seq<u64>) -> Seq<u32>
    decreases draws.len(),
{
    if draws.len() == 0 {
        w0
    } else {
        let w = weights_after(w0, draws.drop_last());
        w.remove(pick_slot(w, draws.last()))
    }
}

/// The teams left in the pool after a run of draws.
pub open spec fn pool_after(p0: Seq<TeamId>, w0: Seq<u32>, draws: Seq<u64>) -> Seq<TeamId>
    decreases draws.len(),
{
    if draws.len() == 0 {
        p0
    } else {
        let w = weights_after(w0, draws.drop_last());
        pool_after(p0, w0, draws.drop_last()).remove(pick_slot(w, draws.last()))
    }
}

/// The teams drawn by a run of draws, in the order drawn.
pub open spec fn lottery_drawn(p0: Seq<TeamId>, w0: Seq<u32>, draws: Seq<u64>) -> Seq<TeamId>
    decreases draws.len(),
{
    if draws.len() == 0 {
        Seq::empty()
    } else {
        let w = weights_after(w0, draws.drop_last());
        lottery_drawn(p0, w0, draws.drop_last()).push(
            pool_after(p0, w0, draws.drop_last())[pick_slot(w, draws.last())])
    }
}

/// The lottery order of a pool (worst record first) under a run of draws.
pub open spec fn lottery_order(pool: Seq<TeamId>, draws: Seq<u64>) -> Seq<TeamId> {
    lottery_drawn(pool, lottery_weights(pool.len()), draws)
}

/// Draws that decide a whole lottery for the pool: one per team.
pub open spec fn lottery_draws_ok(pool: Seq<TeamId>, draws: Seq<u64>) -> bool {
    draws.len() == pool.len()
}

/// The worse the record, the more tickets: in a pool of `n` teams, worst
/// first, each team holds more tickets than every team after it, the worst
/// holds `n` and the best holds one.
pub proof fn lemma_lottery_tickets_favour_worst(n: nat)
    requires
        n <= u32::MAX,
    ensures
        lottery_weights(n).len() == n,
        forall|i: int, j: int| 0 <= i < j < n ==> lottery_weights(n)[i] > lottery_weights(n)[j],
        n > 0 ==> lottery_weights(n)[0] == n && lottery_weights(n)[n - 1] == 1,
{
}

proof fn lemma_pick_from(w: Seq<u32>, l: int, k: int)
    requires
        0 <= k <= w.len(),
        forall|j: int| 0 <= j < k ==> #[trigger] weight_prefix(w, j + 1) * one_ticket() < l,
    ensures
        k <= pick_from(w, l, k) <= w.len(),
        forall|j: int| 0 <= j < pick_from(w, l, k) ==> #[trigger] weight_prefix(w, j + 1) * one_ticket() < l,
        pick_from(w, l, k) < w.len() ==> weight_prefix(w, pick_from(w, l, k) + 1) * one_ticket() >= l,
    decreases w.len() - k,
{
    if k < w.len() && weight_prefix(w, k + 1) * one_ticket() < l {
        lemma_pick_from(w, l, k + 1);
    }
}

/// A draw lands on the first team whose running count of tickets reaches
/// the landing point: the tickets of the teams before it fall short of it,
/// and (when the point is within the tickets, as it is unless rounding
/// pushes it past) its own tickets reach it.
pub proof fn lemma_pick_slot_lands(w: Seq<u32>, word: u64)
    requires
        w.len() > 0,
    ensures
        ({
            let p = pick_slot(w, word);
            let l = landing(word, weight_total(w));
            &&& 0 <= p < w.len()
            &&& p > 0 ==> weight_prefix(w, p) * one_ticket() < l
            &&& l <= weight_total(w) * one_ticket() ==> weight_prefix(w, p + 1) * one_ticket() >= l
        }),
{
    let l = landing(word, weight_total(w));
    lemma_pick_from(w, l, 0);
    let pf = pick_from(w, l, 0);
    if pf < w.len() {
        if pf > 0 {
            assert(weight_prefix(w, (pf - 1) + 1) * one_ticket() < l);
        }
    } else if w.len() > 0 {
        assert(weight_prefix(w, (w.len() - 1) + 1) * one_ticket() < l);
    }
}

/// Where a draw lands is the word's fraction of the tickets: within one
/// part in 2^52 (plus 2^-60 of a ticket) of `(word >> 11) / 2^53 * total`.
pub proof fn lemma_landing_close(word: u64, total: int)
    requires
        total >= 0,
    ensures
        ({
            let exact = (word / 2048) * total * 128;
            &&& 4_503_599_627_370_496 * (landing(word, total) - exact) <= exact + 4_503_599_627_370_496
            &&& 4_503_599_627_370_496 * (exact - landing(word, total)) <= exact + 4_503_599_627_370_496
        }),
{
    assert((word / 2048) * total * 128 >= 0) by (nonlinear_arith)
        requires total >= 0, word >= 0;
    lemma_nearest_double_close((word / 2048) * total * 128);
}

/// The ticket weights for a pool of `n` teams.
fn lottery_tickets(n: usize) -> (w: Vec<u32>)
    requires
        n <= 32,
    ensures
        w@ == lottery_weights(n as nat),
        weight_total(w@) <= 32 * n,
        forall|j: int| 0 <= j < w@.len() ==> 1 <= #[trigger] w@[j] <= 32,
{
    let mut w: Vec<u32> = Vec::new();
    let mut i: usize = 0;
    while i < n
        invariant
            n <= 32,
            i <= n,
            w@.len() == i,
            forall|j: int| 0 <= j < i ==> #[trigger] w@[j] == n - j,
            weight_prefix(w@, i as int) <= 32 * i,
        decreases n - i,
    {
        let x = (n - i) as u32;
        proof {
            lemma_prefix_push(w@, x, i as int);
        }
        w.push(x);
        i = i + 1;
    }
    assert(w@ =~= lottery_weights(n as nat));
    w
}

/// One draw: the slot it lands in, with the weight and the team there
/// removed. Returns the team drawn and the weight removed.
fn draw_slot(w: &mut Vec<u32>, pool: &mut Vec<TeamId>, d: u64) -> (r: (TeamId, u32))
    requires
        old(w)@.len() == old(pool)@.len(),
        old(w)@.len() > 0,
        weight_total(old(w)@) <= 1024,
        forall|j: int| 0 <= j < old(w)@.len() ==> 1 <= #[trigger] old(w)@[j] <= 32,
    ensures
        final(w)@ == old(w)@.remove(pick_slot(old(w)@, d)),
        final(pool)@ == old(pool)@.remove(pick_slot(old(w)@, d)),
        r.0 == old(pool)@[pick_slot(old(w)@, d)],
        0 <= pick_slot(old(w)@, d) < old(w)@.len(),
        weight_total(final(w)@) == weight_total(old(w)@) - r.1,
        r.1 <= weight_total(old(w)@),
        forall|j: int| 0 <= j < final(w)@.len() ==> 1 <= #[trigger] final(w)@[j] <= 32,
        final(pool)@.to_multiset().insert(r.0) == old(pool)@.to_multiset(),
{
    let ghost w0 = w@;
    let ghost p0 = pool@;
    let idx = lottery_index(w, d);
    proof {
        if w0.len() > 1 {
            lemma_prefix_remove(w0, idx as int, w0.len() - 1);
        }
        lemma_prefix_monotone(w0, idx as int + 1, w0.len() as int);
        lemma_prefix_monotone(w0, 0, idx as int);
        assert(weight_prefix(w0, idx + 1) == weight_prefix(w0, idx as int) + w0[idx as int]);
        if w0.len() == 1 {
            assert(w0.remove(0) =~= Seq::<u32>::empty());
        }
    }
    let x = w.remove(idx);
    let id = pool.remove(idx);
    proof {
        assert forall|j: int| 0 <= j < w@.len() implies 1 <= #[trigger] w@[j] <= 32 by {
            if j < idx {
                assert(w@[j] == w0[j]);
            } else {
                assert(w@[j] == w0[j + 1]);
            }
        }
        assert(pool@.to_multiset().insert(id) =~= p0.to_multiset());
    }
    (id, x)
}

/// The lottery for a pool of teams, worst record first, decided by the
/// given draws: the worst team holds the most tickets (one per team in the
/// pool), the best the fewest (one); each draw picks the slot it lands in
/// (`lottery_index`), and the team drawn leaves the pool with its tickets.
pub fn lottery_from_draws(pool: &Vec<TeamId>, draws: &Vec<u64>) -> (order: Vec<TeamId>)
    requires
        pool@.len() <= 32,
        lottery_draws_ok(pool@, draws@),
    ensures
        order@ == lottery_order(pool@, draws@),
        order@.to_multiset() == pool@.to_multiset(),
{
    let n = pool.len();
    let ghost w0 = lottery_weights(n as nat);
    let mut w = lottery_tickets(n);
    let mut p: Vec<TeamId> = Vec::new();
    let mut k: usize = 0;
    while k < n
        invariant
            k <= n == pool@.len(),
            p@ == pool@.take(k as int),
        decreases n - k,
    {
        p.push(pool[k]);
        k = k + 1;
        assert(p@ =~= pool@.take(k as int));
    }
    assert(pool@.take(n as int) =~= pool@);
    let mut order: Vec<TeamId> = Vec::new();
    let mut i: usize = 0;
    while i < draws.len()
        invariant
            n == pool@.len() <= 32,
            draws@.len() == n,
            i <= n,
            w@ == weights_after(w0, draws@.take(i as int)),
            p@ == pool_after(pool@, w0, draws@.take(i as int)),
            order@ == lottery_drawn(pool@, w0, draws@.take(i as int)),
            w@.len() == p@.len(),
            w@.len() == n - i,
            weight_total(w@) <= 1024,
            forall|j: int| 0 <= j < w@.len() ==> 1 <= #[trigger] w@[j] <= 32,
            order@.to_multiset().add(p@.to_multiset()) == pool@.to_multiset(),
        decreases n - i,
    {
        let d = draws[i];
        let ghost pre = draws@.take(i as int);
        let ghost post = draws@.take(i + 1);
        proof {
            assert(post.drop_last() =~= pre);
            assert(post.last() == d);
        }
        let ghost o0 = order@;
        let ghost p0 = p@;
        let (id, x) = draw_slot(&mut w, &mut p, d);
        order.push(id);
        proof {
            assert(order@.to_multiset().add(p@.to_multiset()) =~= o0.to_multiset().add(p0.to_multiset()));
        }
        i = i + 1;
    }
    proof {
        assert(draws@.take(n as int) =~= draws@);
        assert(p@ =~= Seq::<TeamId>::empty());
        assert(p@.to_multiset() =~= Multiset::<TeamId>::empty());
        assert(order@.to_multiset() =~= pool@.to_multiset());
    }
    order
}

// ---------------------------------------------------------------------------
// The draft order
// ---------------------------------------------------------------------------

/// The ids of the first (up to) eight teams of a standings order.
pub open spec fn top_eight(teams: Seq<Team>, order: Seq<usize>) -> Seq<TeamId> {
    Seq::new(if order.len() < 8 { order.len() } else { 8 }, |k: int| teams[order[k] as int].id)
}

/// `east` and `west` are the two conferences' standings orders.
pub open spec fn both_standings(teams: Seq<Team>, east: Seq<usize>, west: Seq<usize>) -> bool {
    is_standings_order(teams, Conference::East, east) && is_standings_order(teams, Conference::West, west)
}

/// `field` is the playoff field: the top eight of the East, then the top
/// eight of the West.
pub open spec fn is_playoff_field(teams: Seq<Team>, field: Seq<TeamId>) -> bool {
    exists|east: Seq<usize>, west: Seq<usize>| #[trigger] both_standings(teams, east, west)
        && field == top_eight(teams, east) + top_eight(teams, west)
}

/// The ids of the teams listed in `order` (indices into `teams`) whose
/// membership of `field` is `inside`, in list order.
pub open spec fn field_split(teams: Seq<Team>, order: Seq<usize>, field: Seq<TeamId>, inside: bool) -> Seq<TeamId>
    decreases order.len(),
{
    if order.len() == 0 {
        Seq::empty()
    } else {
        let rest = field_split(teams, order.drop_last(), field, inside);
        let id = teams[order.last() as int].id;
        if field.contains(id) == inside { rest.push(id) } else { rest }
    }
}

/// What the draft order is built from: the teams worst record first, and
/// the playoff field.
pub open spec fn draft_basis(teams: Seq<Team>, worst_first: Seq<usize>, field: Seq<TeamId>) -> bool {
    is_record_order(teams, worst_first) && is_playoff_field(teams, field)
}

/// What the draft order is built from: the teams worst record first, the
/// playoff field, and draws that decide the lottery of the teams outside
/// the field.
pub open spec fn draft_seeding(teams: Seq<Team>, worst_first: Seq<usize>, field: Seq<TeamId>, draws: Seq<u64>)
    -> bool {
    &&& draft_basis(teams, worst_first, field)
    &&& lottery_draws_ok(field_split(teams, worst_first, field, false), draws)
}

proof fn lemma_split_lengths(teams: Seq<Team>, order: Seq<usize>, field: Seq<TeamId>)
    ensures
        field_split(teams, order, field, false).len() + field_split(teams, order, field, true).len() == order.len(),
    decreases order.len(),
{
    if order.len() > 0 {
        lemma_split_lengths(teams, order.drop_last(), field);
    }
}

proof fn lemma_split_contains(teams: Seq<Team>, order: Seq<usize>, field: Seq<TeamId>, k: int)
    requires
        0 <= k < order.len(),
        forall|j: int| 0 <= j < order.len() ==> (#[trigger] order[j]) < teams.len(),
    ensures
        field_split(teams, order, field, field.contains(teams[order[k] as int].id))
            .contains(teams[order[k] as int].id),
    decreases order.len(),
{
    let id = teams[order[k] as int].id;
    let inside = field.contains(id);
    let rest = field_split(teams, order.drop_last(), field, inside);
    if k == order.len() - 1 {
        assert(field_split(teams, order, field, inside) == rest.push(id));
        assert(rest.push(id)[rest.len() as int] == id);
    } else {
        lemma_split_contains(teams, order.drop_last(), field, k);
        let j = choose|j: int| 0 <= j < rest.len() && rest[j] == id;
        let last = teams[order.last() as int].id;
        if field.contains(last) == inside {
            assert(rest.push(last)[j] == id);
        }
    }
}

/// A list of `n` ids that names each of `0..n` names each exactly once.
proof fn lemma_covering_ids_distinct(s: Seq<TeamId>, n: int)
    requires
        s.len() == n <= u32::MAX,
        forall|t: int| 0 <= t < n ==> #[trigger] s.contains(t as TeamId),
    ensures
        s.no_duplicates(),
{
    let s2 = s.map_values(|x: TeamId| x as int);
    lemma_int_range(0, n);
    assert(set_int_range(0, n).subset_of(s2.to_set())) by {
        assert forall|i: int| #[trigger] set_int_range(0, n).contains(i) implies s2.to_set().contains(i) by {
            assert(s.contains(i as TeamId));
            let j = choose|j: int| 0 <= j < s.len() && s[j] == i as TeamId;
            assert((i as TeamId) as int == i);
            assert(s2[j] == i);
        }
    }
    seq_to_set_is_finite(s2);
    lemma_len_subset(set_int_range(0, n), s2.to_set());
    s2.lemma_cardinality_of_set();
    s2.lemma_no_dup_set_cardinality();
    assert forall|a: int, b: int| 0 <= a < s.len() && 0 <= b < s.len() && a != b implies s[a] != s[b] by {
        assert(s2[a] != s2[b]);
    }
}

/// Whether `id` is one of `ids`.
fn holds_id(ids: &Vec<TeamId>, id: TeamId) -> (r: bool)
    ensures
        r == ids@.contains(id),
{
    let mut k: usize = 0;
    while k < ids.len()
        invariant
            k <= ids@.len(),
            forall|j: int| 0 <= j < k ==> ids@[j] != id,
        decreases ids@.len() - k,
    {
        if ids[k] == id {
            return true;
        }
        k = k + 1;
    }
    false
}

/// The playoff field: the top eight seeds of the East, then of the West.
fn playoff_field(teams: &[Team]) -> (field: Vec<TeamId>)
    ensures
        is_playoff_field(teams@, field@),
{
    let mut field = playoff_seeds(teams, Conference::East);
    let mut west = playoff_seeds(teams, Conference::West);
    let ghost e = choose|order: Seq<usize>| #[trigger] is_standings_order(teams@, Conference::East, order)
        && field@.len() == (if order.len() < 8 { order.len() } else { 8 })
        && forall|k: int| 0 <= k < field@.len() ==> #[trigger] field@[k] == teams@[order[k] as int].id;
    let ghost w = choose|order: Seq<usize>| #[trigger] is_standings_order(teams@, Conference::West, order)
        && west@.len() == (if order.len() < 8 { order.len() } else { 8 })
        && forall|k: int| 0 <= k < west@.len() ==> #[trigger] west@[k] == teams@[order[k] as int].id;
    assert(field@ =~= top_eight(teams@, e));
    assert(west@ =~= top_eight(teams@, w));
    field.append(&mut west);
    assert(both_standings(teams@, e, w));
    field
}

impl League {
    /// The order in which the teams pick in each round of the draft: the
    /// teams that missed the playoffs in a weighted lottery (the worse the
    /// record, the better the odds), then the playoff teams, worst record
    /// first. Every team appears in it.
    pub fn draft_order(&self, rng: &mut StdRng) -> (order: Vec<TeamId>)
        requires
            self.wf(),
        ensures
            exists|worst_first: Seq<usize>, field: Seq<TeamId>, draws: Seq<u64>|
                #[trigger] draft_seeding(self.teams@, worst_first, field, draws)
                && order@ == lottery_order(field_split(self.teams@, worst_first, field, false), draws)
                    + field_split(self.teams@, worst_first, field, true),
            order@.len() == self.teams@.len(),
            forall|t: int| 0 <= t < self.teams@.len() ==> #[trigger] order@.contains(t as TeamId),
            order@.no_duplicates(),
    {
        let teams = &self.teams;
        let field = playoff_field(teams.as_slice());
        let rec = record_order(teams.as_slice());
        let ghost ts = teams@;

        // Split the teams, worst first, into the lottery pool and the field.
        let mut pool: Vec<TeamId> = Vec::new();
        let mut tail: Vec<TeamId> = Vec::new();
        let mut k: usize = 0;
        while k < rec.len()
            invariant
                ts == self.teams@,
                teams@ == ts,
                ts.len() == 32,
                is_record_order(ts, rec@),
                k <= rec@.len(),
                pool@ == field_split(ts, rec@.subrange(0, k as int), field@, false),
                tail@ == field_split(ts, rec@.subrange(0, k as int), field@, true),
                pool@.len() + tail@.len() == k,
            decreases rec@.len() - k,
        {
            let id = teams[rec[k]].id;
            let inside = holds_id(&field, id);
            proof {
                assert(rec@.subrange(0, k + 1).drop_last() =~= rec@.subrange(0, k as int));
            }
            if inside {
                tail.push(id);
            } else {
                pool.push(id);
            }
            k = k + 1;
        }
        proof {
            assert(rec@.subrange(0, rec@.len() as int) =~= rec@);
        }
        let ghost out = pool@;
        let ghost inn = tail@;

        // Draw the lottery slots one at a time: each draw lands among the
        // tickets left, and the team holding that ticket leaves the pool with
        // its tickets. The words drawn decide the lottery.
        let n = pool.len();
        let ghost w0 = lottery_weights(n as nat);
        let mut w = lottery_tickets(n);
        let mut draws: Vec<u64> = Vec::new();
        let mut slots: Vec<TeamId> = Vec::new();
        let mut q: usize = 0;
        while q < n
            invariant
                q <= n,
                slots@.len() == q,
            decreases n - q,
        {
            slots.push(0);
            q = q + 1;
        }
        while w.len() > 0
            invariant
                n == out.len() <= 32,
                w@ == weights_after(w0, draws@),
                w@.len() + draws@.len() == n,
                slots@.len() == w@.len(),
                weight_total(w@) <= 1024,
                forall|j: int| 0 <= j < w@.len() ==> 1 <= #[trigger] w@[j] <= 32,
            decreases w@.len(),
        {
            let d = rng_word(rng);
            let ghost d0 = draws@;
            let _ = draw_slot(&mut w, &mut slots, d);
            draws.push(d);
            proof {
                assert(draws@.drop_last() =~= d0);
                assert(draws@.last() == d);
            }
        }
        let lottery = lottery_from_draws(&pool, &draws);
        proof {
            assert(lottery@.len() == lottery@.to_multiset().len());
            assert(out.len() == out.to_multiset().len());
        }
        let ghost lot = lottery@;
        let mut order = lottery;
        let mut tail_mut = tail;
        order.append(&mut tail_mut);
        proof {
            assert(lot.to_multiset() =~= out.to_multiset());
            assert(order@.subrange(0, out.len() as int) =~= lot);
            assert(order@.subrange(out.len() as int, order@.len() as int) =~= inn);
            assert(draft_seeding(ts, rec@, field@, draws@));
            lemma_split_lengths(ts, rec@, field@);
            assert forall|t: int| 0 <= t < ts.len() implies #[trigger] order@.contains(t as TeamId) by {
                assert(rec@.contains(t as usize));
                let kk = choose|kk: int| 0 <= kk < rec@.len() && rec@[kk] == t as usize;
                assert(ts[t].id == t as TeamId);
                lemma_split_contains(ts, rec@, field@, kk);
                if field@.contains(t as TeamId) {
                    let j = choose|j: int| 0 <= j < inn.len() && inn[j] == t as TeamId;
                    assert(order@[out.len() + j] == t as TeamId);
                } else {
                    assert(out.to_multiset().count(t as TeamId) > 0);
                    assert(lot.contains(t as TeamId));
                    let j = choose|j: int| 0 <= j < lot.len() && lot[j] == t as TeamId;
                    assert(order@[j] == t as TeamId);
                }
            }
            lemma_covering_ids_distinct(order@, ts.len() as int);
        }
        order
    }
}

} // verus!
