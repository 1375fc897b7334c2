//! Basketball GM game engine.
//!
//! The discrete core of the game: teams and rosters, contracts, the season
//! schedule, standings, the playoff bracket, the draft, trades and free
//! agency. Everything here is verified; the rating-driven game simulation and
//! the money model (which run on floating point) live in the application
//! crate around this library.

pub mod types;
pub mod binary64;
pub mod text;
pub mod teams_data;
pub mod player;
pub mod rng;
pub mod schedule;
pub mod order;
pub mod playoffs;
pub mod sim;
pub mod draft;
pub mod free_agency;
pub mod team;
pub mod standings;
pub mod league;
pub mod league_season;
pub mod league_playoffs;
pub mod league_offseason;
pub mod league_draft;
pub mod lottery;
pub mod league_trade;
pub mod league_fa;
pub mod owner;

pub use types::{Color, Conference, PlayerId, Position, TeamId};
pub use teams_data::{presets, TeamPreset};
pub use player::{
    default_trait, Career, CareerSeason, Contract, Honor, HonorEntry, Player, PlayerTrait, Ratings,
    SeasonStats,
};
pub use schedule::{generate_schedule, round_robin_rounds, Game, GameResult};
pub use playoffs::{first_round_pairs, high_seed_hosts, round_name, Playoffs, Series};
pub use sim::{accumulate_stats, break_tie, bump_score, finalize, GameSim, PlayEvent, PlayerLine, TeamBox};
pub use draft::{grade_for_rounded, Draft, DraftPick};
pub use free_agency::{FaOffer, FreeAgency};
pub use team::{Finances, Team};
pub use standings::{conference_standings, playoff_seeds, standings_order, StandingsRow};
pub use league::{
    apply_attr_delta, gen_potential, market_salary, rookie_scale, Awards, Interest, League,
    OwnedPick, OwnerMessage, OwnerTone, Phase, PlayoffOutcome, SeasonHistory, SeasonRecap,
    FA_MAX_OFFERS, MAX_SALARY, MIN_SALARY, PICK_YEARS, ROSTER_MAX, SALARY_CAP, TRADE_DEADLINE_DAY,
};
pub use league_trade::TradeVerdict;
pub use league_fa::{FaBudget, FaChoice};
pub use owner::{deep_run, expectation_phrase, owner_goal, owner_tone, owner_verdict, postseason_note, year_over_year_note, OwnerReport};
