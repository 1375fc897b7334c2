//! Players, their ratings, contracts, and accumulated season statistics.
//!
//! Ratings are individual 0–100 attributes, grouped (in display and in the
//! composite helpers) into inside scoring, outside shooting, playmaking,
//! defense, and physicals.

use vstd::prelude::*;
use crate::binary64::{nearest_double, nearest_double_exec};
use crate::types::{PlayerId, Position, TeamId};
use crate::text::{decimal, decimal_string, digit_char, digit_str};

verus! {

/// A player's skill attributes, each 0–100.
#[derive(Debug, Clone, Copy)]
pub struct Ratings {
    // --- Inside scoring ---
    pub layup: u8,
    pub dunk: u8,
    pub post: u8,
    // --- Outside shooting ---
    pub mid_range: u8,
    pub three: u8,
    pub free_throw: u8,
    // --- Playmaking ---
    pub passing: u8,
    pub ball_handling: u8,
    pub basketball_iq: u8,
    // --- Defense ---
    pub interior_defense: u8,
    pub perimeter_defense: u8,
    pub steal: u8,
    pub block: u8,
    pub rebounding: u8,
    // --- Physicals ---
    pub athleticism: u8,
    pub stamina: u8,
}

/// The weight of the `k`-th attribute (layup 0.9, dunk 0.6, post 0.5,
/// mid-range 0.8, three 1.1, free throw 0.3, passing 0.85, handle 0.85,
/// IQ 0.7, interior D 0.8, perimeter D 0.9, steal 0.5, block 0.5,
/// rebounding 0.7, athleticism 0.7, stamina 0.3; 11 in all), as the double
/// nearest to it, in units of 2^-60.
pub open spec fn overall_weight(k: int) -> int {
    if k == 0 { 1037629354146162304 }
    else if k == 1 { 691752902764108160 }
    else if k == 2 { 576460752303423488 }
    else if k == 3 { 922337203685477632 }
    else if k == 4 { 1268213655067531776 }
    else if k == 5 { 345876451382054080 }
    else if k == 6 { 979983278915819904 }
    else if k == 7 { 979983278915819904 }
    else if k == 8 { 807045053224792832 }
    else if k == 9 { 922337203685477632 }
    else if k == 10 { 1037629354146162304 }
    else if k == 11 { 576460752303423488 }
    else if k == 12 { 576460752303423488 }
    else if k == 13 { 807045053224792832 }
    else if k == 14 { 807045053224792832 }
    else if k == 15 { 345876451382054080 }
    else { 0 }
}

/// A rating times its weight, rounded to a double (units of 2^-60).
pub open spec fn fmul_spec(rating: int, k: int) -> int {
    nearest_double(rating * overall_weight(k), 1)
}

/// A sum of two doubles, rounded to a double (units of 2^-60).
pub open spec fn fadd_spec(a: int, b: int) -> int {
    nearest_double(a + b, 1)
}

/// The weighted sum of the attributes, added up in attribute order in
/// double precision (units of 2^-60).
pub open spec fn overall_sum(r: Ratings) -> int {
    fadd_spec(fadd_spec(fadd_spec(fadd_spec(fadd_spec(fadd_spec(fadd_spec(fadd_spec(fadd_spec(fadd_spec(fadd_spec(fadd_spec(fadd_spec(fadd_spec(fadd_spec(fmul_spec(r.layup as int, 0), fmul_spec(r.dunk as int, 1)), fmul_spec(r.post as int, 2)), fmul_spec(r.mid_range as int, 3)), fmul_spec(r.three as int, 4)), fmul_spec(r.free_throw as int, 5)), fmul_spec(r.passing as int, 6)), fmul_spec(r.ball_handling as int, 7)), fmul_spec(r.basketball_iq as int, 8)), fmul_spec(r.interior_defense as int, 9)), fmul_spec(r.perimeter_defense as int, 10)), fmul_spec(r.steal as int, 11)), fmul_spec(r.block as int, 12)), fmul_spec(r.rebounding as int, 13)), fmul_spec(r.athleticism as int, 14)), fmul_spec(r.stamina as int, 15))
}

/// `sum / n`, rounded to the nearest integer with halves rounded up.
pub open spec fn rounded_div(sum: int, n: int) -> int {
    (2 * sum + n) / (2 * n)
}

/// The overall rating: the weighted sum divided by 11 (the weights' total)
/// as a double, rounded to the nearest whole number (halves up), at most
/// 255.
pub open spec fn overall_of(r: Ratings) -> int {
    let n = (nearest_double(overall_sum(r), 11) + 576_460_752_303_423_488) / 1_152_921_504_606_846_976;
    if n > 255 { 255 } else { n }
}

/// Sum of a run of ratings.
pub open spec fn sum_u8(s: Seq<u8>) -> int
    decreases s.len(),
{
    if s.len() == 0 {
        0
    } else {
        sum_u8(s.drop_last()) + s.last()
    }
}

/// The rounded mean of a run of ratings (0 for an empty run).
pub open spec fn mean_u8(s: Seq<u8>) -> int {
    if s.len() == 0 {
        0
    } else {
        rounded_div(sum_u8(s), s.len() as int)
    }
}

proof fn lemma_sum_u8_bound(s: Seq<u8>)
    ensures
        0 <= sum_u8(s) <= 255 * s.len(),
    decreases s.len(),
{
    if s.len() > 0 {
        lemma_sum_u8_bound(s.drop_last());
    }
}

proof fn lemma_mean_u8_bound(s: Seq<u8>)
    ensures
        0 <= mean_u8(s) <= 255,
{
    lemma_sum_u8_bound(s);
    if s.len() > 0 {
        let n = s.len() as int;
        let t = sum_u8(s);
        assert((2 * t + n) / (2 * n) <= 255) by (nonlinear_arith)
            requires
                0 <= t <= 255 * n,
                n > 0,
        {
            assert(2 * t + n < 256 * (2 * n));
        }
        assert((2 * t + n) / (2 * n) >= 0) by (nonlinear_arith)
            requires
                0 <= t,
                n > 0,
        ;
    }
}

/// A rating times a weight (units of 2^-60), rounded to a double.
fn fmul(rating: u8, w: u128) -> (y: u128)
    requires
        w < 0x2000_0000_0000_0000,
    ensures
        y == nearest_double(rating * w, 1),
        y < 0x40_0000_0000_0000_0000,
{
    assert(rating as u128 * w < 0x20_0000_0000_0000_0000) by (nonlinear_arith)
        requires rating <= 255, w < 0x2000_0000_0000_0000;
    nearest_double_exec(rating as u128 * w, 1)
}

/// The running sum after its `k`-th term, rounded to a double.
fn fadd(a: u128, b: u128, k: u32) -> (y: u128)
    requires
        1 <= k < 16,
        a < k * 0x80_0000_0000_0000_0000,
        b < 0x40_0000_0000_0000_0000,
    ensures
        y == nearest_double(a + b, 1),
        y < (k + 1) * 0x80_0000_0000_0000_0000,
{
    nearest_double_exec(a + b, 1)
}

impl Ratings {
    /// A single 0–100 summary used for sorting and roster strength, weighted
    /// toward the attributes that move the needle most in the sim.
    pub fn overall(&self) -> (o: u8)
        ensures
            o == overall_of(*self),
    {
        let mut s: u128 = fmul(self.layup, 1037629354146162304);
        assert(s == fmul_spec(self.layup as int, 0) && s < 0x40_0000_0000_0000_0000);
        s = fadd(s, fmul(self.dunk, 691752902764108160), 1);
        s = fadd(s, fmul(self.post, 576460752303423488), 2);
        s = fadd(s, fmul(self.mid_range, 922337203685477632), 3);
        s = fadd(s, fmul(self.three, 1268213655067531776), 4);
        s = fadd(s, fmul(self.free_throw, 345876451382054080), 5);
        s = fadd(s, fmul(self.passing, 979983278915819904), 6);
        s = fadd(s, fmul(self.ball_handling, 979983278915819904), 7);
        s = fadd(s, fmul(self.basketball_iq, 807045053224792832), 8);
        s = fadd(s, fmul(self.interior_defense, 922337203685477632), 9);
        s = fadd(s, fmul(self.perimeter_defense, 1037629354146162304), 10);
        s = fadd(s, fmul(self.steal, 576460752303423488), 11);
        s = fadd(s, fmul(self.block, 576460752303423488), 12);
        s = fadd(s, fmul(self.rebounding, 807045053224792832), 13);
        s = fadd(s, fmul(self.athleticism, 807045053224792832), 14);
        s = fadd(s, fmul(self.stamina, 345876451382054080), 15);
        assert(s == overall_sum(*self));
        let q = nearest_double_exec(s, 11);
        let n = (q + 576_460_752_303_423_488) / 1_152_921_504_606_846_976;
        if n > 255 { 255 } else { n as u8 }
    }

    /// Rounded mean of a run of ratings.
    fn avg(vals: &[u8]) -> (m: u8)
        requires
            vals@.len() <= 16,
        ensures
            m == mean_u8(vals@),
    {
        let n = vals.len();
        if n == 0 {
            return 0;
        }
        let mut total: u64 = 0;
        let mut i: usize = 0;
        while i < n
            invariant
                n == vals@.len(),
                n <= 16,
                i <= n,
                total == sum_u8(vals@.take(i as int)),
                total <= 255 * i,
            decreases n - i,
        {
            assert(vals@.take(i as int + 1).drop_last() =~= vals@.take(i as int));
            proof {
                lemma_sum_u8_bound(vals@.take(i as int + 1));
            }
            total = total + vals[i] as u64;
            i = i + 1;
        }
        assert(vals@.take(n as int) =~= vals@);
        proof {
            lemma_mean_u8_bound(vals@);
        }
        let m = (2 * total + n as u64) / (2 * n as u64);
        m as u8
    }

    /// Inside-scoring composite (layup / dunk / post).
    pub fn inside(&self) -> (m: u8)
        ensures
            m == rounded_div(self.layup + self.dunk + self.post, 3),
    {
        let v = [self.layup, self.dunk, self.post];
        proof {
            reveal_with_fuel(sum_u8, 4);
            assert(v@.drop_last().drop_last().drop_last() =~= Seq::<u8>::empty());
        }
        Self::avg(&v)
    }

    /// Outside-shooting composite (mid-range / three / free throw).
    pub fn outside(&self) -> (m: u8)
        ensures
            m == rounded_div(self.mid_range + self.three + self.free_throw, 3),
    {
        let v = [self.mid_range, self.three, self.free_throw];
        proof {
            reveal_with_fuel(sum_u8, 4);
            assert(v@.drop_last().drop_last().drop_last() =~= Seq::<u8>::empty());
        }
        Self::avg(&v)
    }

    /// Playmaking composite (passing / handle / IQ).
    pub fn playmaking(&self) -> (m: u8)
        ensures
            m == rounded_div(self.passing + self.ball_handling + self.basketball_iq, 3),
    {
        let v = [self.passing, self.ball_handling, self.basketball_iq];
        proof {
            reveal_with_fuel(sum_u8, 4);
            assert(v@.drop_last().drop_last().drop_last() =~= Seq::<u8>::empty());
        }
        Self::avg(&v)
    }

    /// Defense composite (interior / perimeter / steal / block / rebounding).
    pub fn defending(&self) -> (m: u8)
        ensures
            m == rounded_div(
                self.interior_defense + self.perimeter_defense + self.steal + self.block
                    + self.rebounding,
                5,
            ),
    {
        let v = [
            self.interior_defense,
            self.perimeter_defense,
            self.steal,
            self.block,
            self.rebounding,
        ];
        proof {
            reveal_with_fuel(sum_u8, 6);
            assert(v@.drop_last().drop_last().drop_last().drop_last().drop_last()
                =~= Seq::<u8>::empty());
        }
        Self::avg(&v)
    }

    /// Physical composite (athleticism / stamina).
    pub fn athletic(&self) -> (m: u8)
        ensures
            m == rounded_div(self.athleticism + self.stamina, 2),
    {
        let v = [self.athleticism, self.stamina];
        proof {
            reveal_with_fuel(sum_u8, 3);
            assert(v@.drop_last().drop_last() =~= Seq::<u8>::empty());
        }
        Self::avg(&v)
    }
}

/// A player's contract. Salary is in thousands of dollars per year (so 28000
/// means $28.0M). `years` counts seasons remaining, including the upcoming one;
/// 0 means the player is a free agent.
#[derive(Debug, Clone, Copy)]
pub struct Contract {
    pub salary: u32,
    pub years: u8,
}

/// The bound past which a scaled salary has 53 significant bits:
/// 1000 * 2^52.
pub open spec fn scale_limit() -> int {
    4_503_599_627_370_496_000
}

/// `n` doubled until it reaches `scale_limit()`: a salary (thousands) scaled
/// by the power of two that gives `n / 1000` a 53-bit whole part, the
/// precision of a double.
pub open spec fn scaled_from(n: int) -> int
    decreases (if n < scale_limit() { scale_limit() - n } else { 0 }),
    when n > 0
{
    if n >= scale_limit() { n } else { scaled_from(2 * n) }
}

/// The tenths of a million shown for a salary (thousands) with one decimal,
/// the way a double holding `salary / 1000` prints: to the nearest tenth,
/// and when the salary ends in 50 (a tie on paper) by where the double
/// nearest to `salary / 1000` lies: above the tie rounds up, below rounds
/// down, exactly on it rounds to the even tenth.
pub open spec fn tenths_shown(salary: int) -> int {
    let t = salary / 100;
    let r = salary % 100;
    if r < 50 {
        t
    } else if r > 50 {
        t + 1
    } else {
        let n = scaled_from(salary);
        let rem = n % 1000;
        if rem == 0 {
            if t % 2 == 0 { t } else { t + 1 }
        } else if rem > 500 || (rem == 500 && (n / 1000) % 2 == 1) {
            t + 1
        } else {
            t
        }
    }
}

/// A salary (thousands) shown in millions with one decimal, e.g. "$28.0M".
pub open spec fn salary_text(salary: u32) -> Seq<char> {
    let tenths = tenths_shown(salary as int);
    seq!['$'] + decimal((tenths / 10) as nat) + seq!['.', digit_char(tenths % 10), 'M']
}

/// The tenths of a million a salary shows (see `tenths_shown`).
fn salary_tenths(salary: u32) -> (t: u64)
    ensures
        t == tenths_shown(salary as int),
{
    let s = salary as u64;
    let t = s / 100;
    let r = s % 100;
    if r < 50 {
        t
    } else if r > 50 {
        t + 1
    } else {
        let mut n: u128 = s as u128;
        while n < 4_503_599_627_370_496_000u128
            invariant
                0 < n < 2 * scale_limit(),
                s > 0,
                scaled_from(n as int) == scaled_from(s as int),
            decreases (if n < scale_limit() { scale_limit() - n } else { 0 }),
        {
            n = n * 2;
        }
        let rem = n % 1000;
        if rem == 0 {
            if t % 2 == 0 { t } else { t + 1 }
        } else if rem > 500 || (rem == 500 && (n / 1000) % 2 == 1) {
            t + 1
        } else {
            t
        }
    }
}

impl Contract {
    pub fn free_agent() -> (c: Contract)
        ensures
            c.salary == 0,
            c.years == 0,
    {
        Contract { salary: 0, years: 0 }
    }

    pub fn is_expired(&self) -> (b: bool)
        ensures
            b == (self.years == 0),
    {
        self.years == 0
    }

    /// Salary formatted like "$28.0M".
    pub fn salary_str(&self) -> (s: String)
        ensures
            s@ == salary_text(self.salary),
    {
        let tenths: u64 = salary_tenths(self.salary);
        let whole = (tenths / 10) as u32;
        let frac = (tenths % 10) as u32;
        let mut s = String::from_str("$");
        let w = decimal_string(whole);
        s.append(w.as_str());
        s.append(".");
        s.append(digit_str(frac));
        s.append("M");
        proof {
            reveal_strlit("$");
            reveal_strlit(".");
            reveal_strlit("M");
            assert(s@ =~= salary_text(self.salary));
        }
        s
    }
}

/// A player's personality — a single defining trait.
#[derive(Debug, Clone, Copy, PartialEq, Eq, Structural)]
pub enum PlayerTrait {
    /// Lifts team chemistry and teammates; morale rides on winning.
    Leader,
    /// Steady, content, sticks around; morale barely wavers.
    Loyal,
    /// Chases money and winning; sours fast when losing or underpaid.
    Mercenary,
    /// Volatile; a losing locker room drags him (and the team) down.
    Hothead,
    /// Relentless worker — develops noticeably faster.
    GymRat,
    /// Makes the young players around him better.
    Mentor,
    /// A magnet for the fanbase — sells jerseys, lifts fan interest.
    FanFavorite,
    /// Even-keeled pro; coachable, no drama.
    Professional,
}

pub open spec fn trait_label(t: PlayerTrait) -> Seq<char> {
    match t {
        PlayerTrait::Leader => "Leader"@,
        PlayerTrait::Loyal => "Loyal"@,
        PlayerTrait::Mercenary => "Mercenary"@,
        PlayerTrait::Hothead => "Hothead"@,
        PlayerTrait::GymRat => "Gym Rat"@,
        PlayerTrait::Mentor => "Mentor"@,
        PlayerTrait::FanFavorite => "Fan Favorite"@,
        PlayerTrait::Professional => "Professional"@,
    }
}

pub open spec fn trait_blurb(t: PlayerTrait) -> Seq<char> {
    match t {
        PlayerTrait::Leader => "Lifts the locker room; his mood follows winning."@,
        PlayerTrait::Loyal => "Content and steady — rarely rocks the boat."@,
        PlayerTrait::Mercenary => "In it for money and rings; sours quickly otherwise."@,
        PlayerTrait::Hothead => "Volatile — a losing culture drags him and the team down."@,
        PlayerTrait::GymRat => "Outworks everyone; develops faster than his peers."@,
        PlayerTrait::Mentor => "Makes the young players around him better."@,
        PlayerTrait::FanFavorite => "The city loves him — sells jerseys and fills seats."@,
        PlayerTrait::Professional => "Even-keeled and coachable; no drama."@,
    }
}

impl PlayerTrait {
    /// Every trait, in declaration order.
    pub fn all() -> (v: Vec<PlayerTrait>)
        ensures
            v@ == seq![
                PlayerTrait::Leader,
                PlayerTrait::Loyal,
                PlayerTrait::Mercenary,
                PlayerTrait::Hothead,
                PlayerTrait::GymRat,
                PlayerTrait::Mentor,
                PlayerTrait::FanFavorite,
                PlayerTrait::Professional,
            ],
    {
        vec![
            PlayerTrait::Leader,
            PlayerTrait::Loyal,
            PlayerTrait::Mercenary,
            PlayerTrait::Hothead,
            PlayerTrait::GymRat,
            PlayerTrait::Mentor,
            PlayerTrait::FanFavorite,
            PlayerTrait::Professional,
        ]
    }

    pub fn label(&self) -> (s: &'static str)
        ensures
            s@ == trait_label(*self),
    {
        match self {
            PlayerTrait::Leader => "Leader",
            PlayerTrait::Loyal => "Loyal",
            PlayerTrait::Mercenary => "Mercenary",
            PlayerTrait::Hothead => "Hothead",
            PlayerTrait::GymRat => "Gym Rat",
            PlayerTrait::Mentor => "Mentor",
            PlayerTrait::FanFavorite => "Fan Favorite",
            PlayerTrait::Professional => "Professional",
        }
    }

    pub fn blurb(&self) -> (s: &'static str)
        ensures
            s@ == trait_blurb(*self),
    {
        match self {
            PlayerTrait::Leader => "Lifts the locker room; his mood follows winning.",
            PlayerTrait::Loyal => "Content and steady — rarely rocks the boat.",
            PlayerTrait::Mercenary => "In it for money and rings; sours quickly otherwise.",
            PlayerTrait::Hothead => "Volatile — a losing culture drags him and the team down.",
            PlayerTrait::GymRat => "Outworks everyone; develops faster than his peers.",
            PlayerTrait::Mentor => "Makes the young players around him better.",
            PlayerTrait::FanFavorite => "The city loves him — sells jerseys and fills seats.",
            PlayerTrait::Professional => "Even-keeled and coachable; no drama.",
        }
    }
}

/// The trait a player carries when none was recorded.
pub fn default_trait() -> (t: PlayerTrait)
    ensures
        t == PlayerTrait::Professional,
{
    PlayerTrait::Professional
}

/// A player. (His morale, a 0..1 mood, is kept by the application layer.)
#[derive(Debug, Clone)]
pub struct Player {
    pub id: PlayerId,
    pub name: String,
    pub age: u8,
    pub position: Position,
    pub ratings: Ratings,
    /// Defining personality trait.
    pub personality: PlayerTrait,
    /// Games remaining on a suspension; 0 = available.
    pub suspended: u32,
    /// True peak overall this player can reach (the development ceiling).
    pub potential: u8,
    /// `None` for free agents / undrafted prospects.
    pub team: Option<TeamId>,
    /// The season in which this player was drafted; `None` for the initial
    /// league population.
    pub draft_season: Option<u32>,
    /// Current contract (salary + years remaining).
    pub contract: Contract,
}

impl Player {
    pub fn overall(&self) -> (o: u8)
        ensures
            o == overall_of(self.ratings),
    {
        self.ratings.overall()
    }

    /// Whether the player still has untapped upside.
    pub fn has_upside(&self) -> (b: bool)
        ensures
            b == (self.potential > overall_of(self.ratings)),
    {
        self.potential > self.overall()
    }
}

/// Accumulated totals for one player, indexed by player id in the league.
#[derive(Debug, Clone, Copy)]
pub struct SeasonStats {
    pub gp: u32,
    pub min: u32,
    pub pts: u32,
    pub fgm: u32,
    pub fga: u32,
    pub tpm: u32,
    pub tpa: u32,
    pub ftm: u32,
    pub fta: u32,
    pub oreb: u32,
    pub dreb: u32,
    pub ast: u32,
    pub stl: u32,
    pub blk: u32,
    pub tov: u32,
}

/// The `k`-th counting stat of a line (0 = gp, 1 = min, 2 = pts, 3 = fgm,
/// 4 = fga, 5 = tpm, 6 = tpa, 7 = ftm, 8 = fta, 9 = oreb, 10 = dreb, 11 = ast,
/// 12 = stl, 13 = blk, 14 = tov).
pub open spec fn stat(s: SeasonStats, k: int) -> int {
    if k == 0 { s.gp as int }
    else if k == 1 { s.min as int }
    else if k == 2 { s.pts as int }
    else if k == 3 { s.fgm as int }
    else if k == 4 { s.fga as int }
    else if k == 5 { s.tpm as int }
    else if k == 6 { s.tpa as int }
    else if k == 7 { s.ftm as int }
    else if k == 8 { s.fta as int }
    else if k == 9 { s.oreb as int }
    else if k == 10 { s.dreb as int }
    else if k == 11 { s.ast as int }
    else if k == 12 { s.stl as int }
    else if k == 13 { s.blk as int }
    else { s.tov as int }
}

/// The number of counting stats in a line.
pub open spec fn n_stats() -> int {
    15
}

/// A line whose every stat is zero.
pub open spec fn zero_stats() -> SeasonStats {
    SeasonStats {
        gp: 0, min: 0, pts: 0, fgm: 0, fga: 0, tpm: 0, tpa: 0, ftm: 0, fta: 0,
        oreb: 0, dreb: 0, ast: 0, stl: 0, blk: 0, tov: 0,
    }
}

/// Summed totals of a run of lines, stat by stat.
pub open spec fn stats_total(s: Seq<SeasonStats>, k: int) -> int
    decreases s.len(),
{
    if s.len() == 0 {
        0
    } else {
        stats_total(s.drop_last(), k) + stat(s.last(), k)
    }
}

impl SeasonStats {
    /// A line of zeros.
    pub fn new() -> (s: SeasonStats)
        ensures
            s == zero_stats(),
    {
        SeasonStats {
            gp: 0, min: 0, pts: 0, fgm: 0, fga: 0, tpm: 0, tpa: 0, ftm: 0, fta: 0,
            oreb: 0, dreb: 0, ast: 0, stl: 0, blk: 0, tov: 0,
        }
    }

    pub fn reb(&self) -> (r: u32)
        requires
            self.oreb + self.dreb <= u32::MAX,
        ensures
            r == self.oreb + self.dreb,
    {
        self.oreb + self.dreb
    }

    /// Add another season's totals into these (for career totals).
    pub fn add(&mut self, o: &SeasonStats)
        requires
            forall|k: int| 0 <= k < n_stats() ==> stat(*old(self), k) + stat(*o, k) <= u32::MAX,
        ensures
            forall|k: int| 0 <= k < n_stats() ==> #[trigger] stat(*final(self), k) == stat(*old(self), k) + stat(*o, k),
    {
        assert(stat(*self, 0) + stat(*o, 0) <= u32::MAX);
        assert(stat(*self, 1) + stat(*o, 1) <= u32::MAX);
        assert(stat(*self, 2) + stat(*o, 2) <= u32::MAX);
        assert(stat(*self, 3) + stat(*o, 3) <= u32::MAX);
        assert(stat(*self, 4) + stat(*o, 4) <= u32::MAX);
        assert(stat(*self, 5) + stat(*o, 5) <= u32::MAX);
        assert(stat(*self, 6) + stat(*o, 6) <= u32::MAX);
        assert(stat(*self, 7) + stat(*o, 7) <= u32::MAX);
        assert(stat(*self, 8) + stat(*o, 8) <= u32::MAX);
        assert(stat(*self, 9) + stat(*o, 9) <= u32::MAX);
        assert(stat(*self, 10) + stat(*o, 10) <= u32::MAX);
        assert(stat(*self, 11) + stat(*o, 11) <= u32::MAX);
        assert(stat(*self, 12) + stat(*o, 12) <= u32::MAX);
        assert(stat(*self, 13) + stat(*o, 13) <= u32::MAX);
        assert(stat(*self, 14) + stat(*o, 14) <= u32::MAX);
        self.gp = self.gp + o.gp;
        self.min = self.min + o.min;
        self.pts = self.pts + o.pts;
        self.fgm = self.fgm + o.fgm;
        self.fga = self.fga + o.fga;
        self.tpm = self.tpm + o.tpm;
        self.tpa = self.tpa + o.tpa;
        self.ftm = self.ftm + o.ftm;
        self.fta = self.fta + o.fta;
        self.oreb = self.oreb + o.oreb;
        self.dreb = self.dreb + o.dreb;
        self.ast = self.ast + o.ast;
        self.stl = self.stl + o.stl;
        self.blk = self.blk + o.blk;
        self.tov = self.tov + o.tov;
    }
}

/// An honor a player earned in a given season.
#[derive(Debug, Clone, Copy, PartialEq, Eq, Structural)]
pub enum Honor {
    Mvp,
    Dpoy,
    Roy,
    FinalsMvp,
    Champion,
}

pub open spec fn honor_label(h: Honor) -> Seq<char> {
    match h {
        Honor::Mvp => "Most Valuable Player"@,
        Honor::Dpoy => "Defensive Player of the Year"@,
        Honor::Roy => "Rookie of the Year"@,
        Honor::FinalsMvp => "Finals MVP"@,
        Honor::Champion => "Champion"@,
    }
}

pub open spec fn honor_short(h: Honor) -> Seq<char> {
    match h {
        Honor::Mvp => "MVP"@,
        Honor::Dpoy => "DPOY"@,
        Honor::Roy => "ROY"@,
        Honor::FinalsMvp => "Finals MVP"@,
        Honor::Champion => "Champion"@,
    }
}

impl Honor {
    /// Full name, e.g. "Most Valuable Player".
    pub fn label(&self) -> (s: &'static str)
        ensures
            s@ == honor_label(*self),
    {
        match self {
            Honor::Mvp => "Most Valuable Player",
            Honor::Dpoy => "Defensive Player of the Year",
            Honor::Roy => "Rookie of the Year",
            Honor::FinalsMvp => "Finals MVP",
            Honor::Champion => "Champion",
        }
    }

    /// Short tag, e.g. "MVP".
    pub fn short(&self) -> (s: &'static str)
        ensures
            s@ == honor_short(*self),
    {
        match self {
            Honor::Mvp => "MVP",
            Honor::Dpoy => "DPOY",
            Honor::Roy => "ROY",
            Honor::FinalsMvp => "Finals MVP",
            Honor::Champion => "Champion",
        }
    }
}

/// An honor tagged with the season it was won.
#[derive(Debug, Clone, Copy)]
pub struct HonorEntry {
    pub season: u32,
    pub honor: Honor,
}

/// One completed season in a player's career log.
#[derive(Debug, Clone)]
pub struct CareerSeason {
    pub season: u32,
    pub team_abbrev: String,
    pub age: u8,
    /// The player's overall at the end of that season.
    pub overall: u8,
    pub stats: SeasonStats,
}

/// A player's accumulated career: season-by-season log plus honors won.
#[derive(Debug, Clone)]
pub struct Career {
    pub seasons: Vec<CareerSeason>,
    pub honors: Vec<HonorEntry>,
}

/// The stat lines of a career log.
pub open spec fn season_lines(s: Seq<CareerSeason>) -> Seq<SeasonStats> {
    s.map_values(|cs: CareerSeason| cs.stats)
}

/// How many entries of an honor log are the given honor.
pub open spec fn honor_count(s: Seq<HonorEntry>, h: Honor) -> int
    decreases s.len(),
{
    if s.len() == 0 {
        0
    } else {
        honor_count(s.drop_last(), h) + if s.last().honor == h { 1int } else { 0int }
    }
}

proof fn lemma_stats_total_prefix(s: Seq<SeasonStats>, i: int, k: int)
    requires
        0 <= i <= s.len(),
    ensures
        0 <= stats_total(s.take(i), k) <= stats_total(s, k),
    decreases s.len(),
{
    if s.len() > 0 {
        if i == s.len() {
            assert(s.take(i) =~= s);
            lemma_stats_total_prefix(s.drop_last(), i - 1, k);
            assert(s.drop_last().take(i - 1) =~= s.take(i - 1));
            lemma_stats_total_prefix(s.drop_last(), s.len() - 1, k);
            assert(s.drop_last().take(s.len() - 1) =~= s.drop_last());
        } else {
            lemma_stats_total_prefix(s.drop_last(), i, k);
            assert(s.drop_last().take(i) =~= s.take(i));
        }
    }
}

impl Career {
    /// An empty career log.
    pub fn new() -> (c: Career)
        ensures
            c.seasons@.len() == 0,
            c.honors@.len() == 0,
    {
        Career { seasons: Vec::new(), honors: Vec::new() }
    }

    /// Summed totals across every recorded season.
    pub fn totals(&self) -> (t: SeasonStats)
        requires
            forall|k: int| 0 <= k < n_stats() ==> stats_total(season_lines(self.seasons@), k) <= u32::MAX,
        ensures
            forall|k: int| 0 <= k < n_stats() ==> #[trigger] stat(t, k) == stats_total(season_lines(self.seasons@), k),
    {
        let ghost lines = season_lines(self.seasons@);
        let mut t = SeasonStats::new();
        let mut i: usize = 0;
        while i < self.seasons.len()
            invariant
                i <= self.seasons@.len(),
                lines == season_lines(self.seasons@),
                forall|k: int| 0 <= k < n_stats() ==> stats_total(lines, k) <= u32::MAX,
                forall|k: int| 0 <= k < n_stats() ==> #[trigger] stat(t, k) == stats_total(lines.take(i as int), k),
            decreases self.seasons@.len() - i,
        {
            let ghost prev = t;
            proof {
                assert(lines.take(i as int + 1).drop_last() =~= lines.take(i as int));
                assert forall|k: int| 0 <= k < n_stats() implies stat(prev, k) + stat(self.seasons@[i as int].stats, k) <= u32::MAX by {
                    lemma_stats_total_prefix(lines, i as int + 1, k);
                    assert(lines.take(i as int + 1).last() == self.seasons@[i as int].stats);
                }
            }
            t.add(&self.seasons[i].stats);
            i = i + 1;
            proof {
                assert forall|k: int| 0 <= k < n_stats() implies #[trigger] stat(t, k) == stats_total(lines.take(i as int), k) by {
                    assert(lines.take(i as int).drop_last() =~= lines.take(i as int - 1));
                    assert(lines.take(i as int).last() == self.seasons@[i as int - 1].stats);
                }
            }
        }
        assert(lines.take(i as int) =~= lines);
        t
    }

    /// How many times a given honor was won.
    pub fn count(&self, honor: Honor) -> (n: usize)
        ensures
            n == honor_count(self.honors@, honor),
    {
        let mut n: usize = 0;
        let mut i: usize = 0;
        while i < self.honors.len()
            invariant
                i <= self.honors@.len(),
                n <= i,
                n == honor_count(self.honors@.take(i as int), honor),
            decreases self.honors@.len() - i,
        {
            assert(self.honors@.take(i as int + 1).drop_last() =~= self.honors@.take(i as int));
            if self.honors[i].honor == honor {
                n = n + 1;
            }
            i = i + 1;
        }
        assert(self.honors@.take(i as int) =~= self.honors@);
        n
    }
}

} // verus!
