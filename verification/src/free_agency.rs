//! Free-agency state: an offseason bidding period where the user and CPU teams
//! make contract offers and each free agent signs the most appealing one.

use vstd::prelude::*;
use crate::types::{PlayerId, TeamId};

verus! {

/// A contract offer to a free agent.
#[derive(Debug, Clone, Copy)]
pub struct FaOffer {
    pub team: TeamId,
    /// Yearly salary, in thousands of dollars.
    pub salary: u32,
    pub years: u8,
}

/// Live free-agency state.
#[derive(Debug, Clone)]
pub struct FreeAgency {
    pub round: u32,
    /// Free agents still available, best first.
    pub pool: Vec<PlayerId>,
    /// Pending offers for the current round (user + CPU).
    pub offers: Vec<(PlayerId, FaOffer)>,
    /// Signings from the most recent resolved round (display text).
    pub log: Vec<String>,
}

/// Is the `k`-th pending offer the given team's offer to the given player?
pub open spec fn is_offer_of(offers: Seq<(PlayerId, FaOffer)>, k: int, pid: PlayerId, team: TeamId) -> bool {
    offers[k].0 == pid && offers[k].1.team == team
}

impl FreeAgency {
    /// The user's current offer to a player, if any (the first one on file).
    pub fn user_offer(&self, pid: PlayerId, user: TeamId) -> (r: Option<&FaOffer>)
        ensures
            r is None <==> forall|k: int| 0 <= k < self.offers@.len() ==> !is_offer_of(self.offers@, k, pid, user),
            r matches Some(o) ==> exists|k: int| 0 <= k < self.offers@.len()
                && is_offer_of(self.offers@, k, pid, user) && *o == self.offers@[k].1
                && forall|j: int| 0 <= j < k ==> !is_offer_of(self.offers@, j, pid, user),
    {
        let mut i: usize = 0;
        while i < self.offers.len()
            invariant
                i <= self.offers@.len(),
                forall|j: int| 0 <= j < i ==> !is_offer_of(self.offers@, j, pid, user),
            decreases self.offers@.len() - i,
        {
            if self.offers[i].0 == pid && self.offers[i].1.team == user {
                assert(is_offer_of(self.offers@, i as int, pid, user));
                return Some(&self.offers[i].1);
            }
            i = i + 1;
        }
        None
    }
}

} // verus!
