//! Playoff data structures and bracket helpers.
//!
//! The bracket is advanced incrementally by the league one game-day at a
//! time (every live series plays its next game), so the postseason can be
//! watched game-by-game just like the regular season.

use vstd::prelude::*;
use crate::schedule::GameResult;
use crate::types::{PlayerId, TeamId};

verus! {

/// A best-of-7 series between a higher seed (home-court advantage) and a lower
/// seed. First to 4 wins advances.
#[derive(Debug, Clone)]
pub struct Series {
    pub high: TeamId,
    pub low: TeamId,
    pub high_wins: u8,
    pub low_wins: u8,
    pub games: Vec<GameResult>,
}

/// The series winner: whoever has reached four wins (the higher seed is
/// checked first).
pub open spec fn series_winner(s: Series) -> Option<TeamId> {
    if s.high_wins >= 4 {
        Some(s.high)
    } else if s.low_wins >= 4 {
        Some(s.low)
    } else {
        None
    }
}

impl Series {
    pub fn new(high: TeamId, low: TeamId) -> (s: Series)
        ensures
            s.high == high,
            s.low == low,
            s.high_wins == 0,
            s.low_wins == 0,
            s.games@.len() == 0,
    {
        Series { high, low, high_wins: 0, low_wins: 0, games: Vec::new() }
    }

    pub fn winner(&self) -> (w: Option<TeamId>)
        ensures
            w == series_winner(*self),
    {
        if self.high_wins >= 4 {
            Some(self.high)
        } else if self.low_wins >= 4 {
            Some(self.low)
        } else {
            None
        }
    }

    pub fn is_decided(&self) -> (b: bool)
        ensures
            b == (self.high_wins >= 4 || self.low_wins >= 4),
            b == series_winner(*self) is Some,
    {
        self.winner().is_some()
    }

    pub fn games_played(&self) -> (n: usize)
        ensures
            n == self.games@.len(),
    {
        self.games.len()
    }

    pub fn has_team(&self, id: TeamId) -> (b: bool)
        ensures
            b == (self.high == id || self.low == id),
    {
        self.high == id || self.low == id
    }
}

/// Full bracket. `rounds[0]` is the first round (8 series), filled in as it is
/// played; later rounds are appended as earlier ones finish.
#[derive(Debug, Clone)]
pub struct Playoffs {
    pub rounds: Vec<Vec<Series>>,
    pub champion: Option<TeamId>,
    /// Set when the champion is crowned: the best performer in the Finals.
    pub finals_mvp: Option<PlayerId>,
}

pub open spec fn round_title(round: int) -> Seq<char> {
    if round == 0 {
        "First Round"@
    } else if round == 1 {
        "Conference Semifinals"@
    } else if round == 2 {
        "Conference Finals"@
    } else {
        "Finals"@
    }
}

/// The name of a playoff round (0 = first round .. 3 = Finals).
pub fn round_name(round: usize) -> (s: &'static str)
    requires
        round < 4,
    ensures
        s@ == round_title(round as int),
{
    if round == 0 {
        "First Round"
    } else if round == 1 {
        "Conference Semifinals"
    } else if round == 2 {
        "Conference Finals"
    } else {
        "Finals"
    }
}

/// 2-2-1-1-1: which game numbers the higher seed hosts.
pub fn high_seed_hosts(game_no: usize) -> (b: bool)
    ensures
        b == (game_no == 1 || game_no == 2 || game_no == 5 || game_no == 7),
{
    game_no == 1 || game_no == 2 || game_no == 5 || game_no == 7
}

/// Pair seeds 1v8, 2v7, 3v6, 4v5 within a conference's 8-team field, in
/// bracket order (1v8 and 4v5 meet next, as do 2v7 and 3v6).
pub fn first_round_pairs(seeds: &[TeamId]) -> (p: Vec<(TeamId, TeamId)>)
    requires
        seeds@.len() == 8,
    ensures
        p@ == seq![
            (seeds@[0], seeds@[7]),
            (seeds@[3], seeds@[4]),
            (seeds@[1], seeds@[6]),
            (seeds@[2], seeds@[5]),
        ],
{
    let mut p: Vec<(TeamId, TeamId)> = Vec::new();
    p.push((seeds[0], seeds[7]));
    p.push((seeds[3], seeds[4]));
    p.push((seeds[1], seeds[6]));
    p.push((seeds[2], seeds[5]));
    assert(p@ =~= seq![
        (seeds@[0], seeds@[7]),
        (seeds@[3], seeds@[4]),
        (seeds@[1], seeds@[6]),
        (seeds@[2], seeds@[5]),
    ]);
    p
}

} // verus!
