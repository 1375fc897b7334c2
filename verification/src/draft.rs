//! The annual draft: a lottery-seeded, 2-round draft of generated prospects.
//!
//! Order is decided by the league (it needs the standings); this module holds
//! the draft state and the pick board. (The scouting reads on prospects are
//! noisy real-valued estimates and are kept by the application layer.)

use vstd::prelude::*;
use crate::types::{PlayerId, TeamId};

verus! {

/// A single slot in the draft.
#[derive(Debug, Clone, Copy)]
pub struct DraftPick {
    pub round: u8,
    /// Overall pick number, 1..=64.
    pub overall: u8,
    pub team_id: TeamId,
    /// Set once the pick is made.
    pub player_id: Option<PlayerId>,
}

/// Live draft state.
#[derive(Debug, Clone)]
pub struct Draft {
    /// All 64 picks, in order.
    pub picks: Vec<DraftPick>,
    /// Ids of prospects still available.
    pub prospects: Vec<PlayerId>,
    /// Index into `picks` of the team currently on the clock.
    pub on_clock: usize,
    /// Remaining scouting actions you can spend this draft.
    pub scout_points: u32,
}

impl Draft {
    pub fn is_complete(&self) -> (b: bool)
        ensures
            b == (self.on_clock >= self.picks@.len()),
    {
        self.on_clock >= self.picks.len()
    }

    /// The pick currently on the clock, if the draft is still running.
    pub fn current(&self) -> (p: Option<&DraftPick>)
        ensures
            p == (if self.on_clock < self.picks@.len() { Some(&self.picks@[self.on_clock as int]) } else { None }),
    {
        if self.on_clock < self.picks.len() {
            Some(&self.picks[self.on_clock])
        } else {
            None
        }
    }

    /// The team currently on the clock.
    pub fn team_on_clock(&self) -> (t: Option<TeamId>)
        ensures
            t == (if self.on_clock < self.picks@.len() { Some(self.picks@[self.on_clock as int].team_id) } else { None }),
    {
        match self.current() {
            Some(p) => Some(p.team_id),
            None => None,
        }
    }
}

/// The scouting letter grade of a (rounded) peak-overall estimate.
pub open spec fn grade_letter(value: int) -> Seq<char> {
    if value >= 90 { "A+"@ }
    else if value >= 85 { "A"@ }
    else if value >= 80 { "A-"@ }
    else if value >= 76 { "B+"@ }
    else if value >= 72 { "B"@ }
    else if value >= 68 { "B-"@ }
    else if value >= 64 { "C+"@ }
    else if value >= 60 { "C"@ }
    else if value >= 55 { "C-"@ }
    else if value >= 50 { "D"@ }
    else { "F"@ }
}

/// Map a peak-overall value, already rounded to a whole number, to a
/// scouting letter grade.
pub fn grade_for_rounded(value: i32) -> (g: &'static str)
    ensures
        g@ == grade_letter(value as int),
{
    if value >= 90 { "A+" }
    else if value >= 85 { "A" }
    else if value >= 80 { "A-" }
    else if value >= 76 { "B+" }
    else if value >= 72 { "B" }
    else if value >= 68 { "B-" }
    else if value >= 64 { "C+" }
    else if value >= 60 { "C" }
    else if value >= 55 { "C-" }
    else if value >= 50 { "D" }
    else { "F" }
}

} // verus!
