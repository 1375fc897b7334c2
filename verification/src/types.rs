//! Small shared value types used across the engine.

use vstd::prelude::*;

verus! {

/// Team ids index the league's team table.
pub type TeamId = u32;

/// Player ids index the league's player table.
pub type PlayerId = u32;

/// An RGB color, stored as a hex string like `#1D428A`.
#[derive(Debug, Clone)]
pub struct Color(pub String);

impl Color {
    pub fn new(hex: &str) -> (c: Color)
        ensures
            c.0@ == hex@,
    {
        Color(String::from_str(hex))
    }

    pub fn hex(&self) -> (s: &str)
        ensures
            s@ == self.0@,
    {
        self.0.as_str()
    }
}

/// The five basketball positions.
#[derive(Debug, Clone, Copy, PartialEq, Eq, Structural)]
pub enum Position {
    PG,
    SG,
    SF,
    PF,
    C,
}

/// The display abbreviation of a position.
pub open spec fn position_abbrev(p: Position) -> Seq<char> {
    match p {
        Position::PG => "PG"@,
        Position::SG => "SG"@,
        Position::SF => "SF"@,
        Position::PF => "PF"@,
        Position::C => "C"@,
    }
}

impl Position {
    /// All five positions, point guard to center.
    pub fn all() -> (v: Vec<Position>)
        ensures
            v@ == seq![Position::PG, Position::SG, Position::SF, Position::PF, Position::C],
    {
        vec![Position::PG, Position::SG, Position::SF, Position::PF, Position::C]
    }

    pub fn abbrev(&self) -> (s: &'static str)
        ensures
            s@ == position_abbrev(*self),
    {
        match self {
            Position::PG => "PG",
            Position::SG => "SG",
            Position::SF => "SF",
            Position::PF => "PF",
            Position::C => "C",
        }
    }
}

/// The two conferences; the league runs 16 teams in each.
#[derive(Debug, Clone, Copy, PartialEq, Eq, Structural)]
pub enum Conference {
    East,
    West,
}

/// The display name of a conference.
pub open spec fn conference_name(c: Conference) -> Seq<char> {
    match c {
        Conference::East => "Eastern"@,
        Conference::West => "Western"@,
    }
}

impl Conference {
    pub fn name(&self) -> (s: &'static str)
        ensures
            s@ == conference_name(*self),
    {
        match self {
            Conference::East => "Eastern",
            Conference::West => "Western",
        }
    }
}

} // verus!
