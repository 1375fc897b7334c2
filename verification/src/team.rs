//! A team in the league.

use vstd::prelude::*;
use crate::types::{Color, Conference, PlayerId, TeamId};

verus! {

/// A team's front-office finances: what it charges fans and how it splits its
/// budget across departments. Prices are in whole dollars; department budgets
/// are in thousands of dollars per season (like salaries). (The persistent
/// 0..1 fan interest is kept by the application layer's money model.)
#[derive(Debug, Clone, Copy)]
pub struct Finances {
    pub ticket_price: u32,
    pub concession_price: u32,
    /// Speeds player development.
    pub coaching: u32,
    /// Speeds development and slows veteran decline.
    pub training: u32,
    /// Raises attendance and free-agent appeal.
    pub facilities: u32,
    /// Marketing spend: lifts fan interest over time.
    pub marketing: u32,
    /// Stadium seats (upgradeable).
    pub capacity: u32,
    /// Seasons since the arena was built or last renovated.
    pub stadium_age: u32,
    /// How many expansions have been done.
    pub stadium_upgrades: u32,
    // Last completed season's booked figures (thousands), for the P&L.
    pub last_attendance: u32,
    pub last_revenue: u32,
    pub last_merch: u32,
    pub last_expenses: u32,
    pub last_profit: i64,
}

/// The finances every team starts from.
pub open spec fn default_finances() -> Finances {
    Finances {
        ticket_price: 60,
        concession_price: 25,
        coaching: 8_000,
        training: 8_000,
        facilities: 8_000,
        marketing: 6_000,
        capacity: 18_000,
        stadium_age: 8,
        stadium_upgrades: 0,
        last_attendance: 0,
        last_revenue: 0,
        last_merch: 0,
        last_expenses: 0,
        last_profit: 0,
    }
}

impl Default for Finances {
    fn default() -> (f: Self)
        ensures
            f == default_finances(),
    {
        Finances {
            ticket_price: 60,
            concession_price: 25,
            coaching: 8_000,
            training: 8_000,
            facilities: 8_000,
            marketing: 6_000,
            capacity: 18_000,
            stadium_age: 8,
            stadium_upgrades: 0,
            last_attendance: 0,
            last_revenue: 0,
            last_merch: 0,
            last_expenses: 0,
            last_profit: 0,
        }
    }
}

#[derive(Debug, Clone)]
pub struct Team {
    pub id: TeamId,
    /// Fixed in the team builder (one of the 32 preset locations).
    pub location: String,
    /// Editable nickname (defaults to the preset, e.g. "Celtics").
    pub name: String,
    pub abbrev: String,
    pub primary: Color,
    pub secondary: Color,
    pub conference: Conference,
    /// Ids of players on the roster.
    pub roster: Vec<PlayerId>,
    /// Regular-season record.
    pub wins: u32,
    pub losses: u32,
    /// Front-office finances.
    pub finances: Finances,
}

/// "Location Name", e.g. "Boston Celtics".
pub open spec fn full_name_of(t: Team) -> Seq<char> {
    t.location@ + " "@ + t.name@
}

impl Team {
    /// Full display name, e.g. "Boston Celtics".
    pub fn full_name(&self) -> (s: String)
        ensures
            s@ == full_name_of(*self),
    {
        let mut s = String::from_str(self.location.as_str());
        s.append(" ");
        s.append(self.name.as_str());
        s
    }

    pub fn games_played(&self) -> (g: u32)
        requires
            self.wins + self.losses <= u32::MAX,
        ensures
            g == self.wins + self.losses,
    {
        self.wins + self.losses
    }

    /// Arena capacity (stored; upgradeable via stadium expansion).
    pub fn capacity(&self) -> (c: u32)
        ensures
            c == self.finances.capacity,
    {
        self.finances.capacity
    }
}

} // verus!
