use engine::draft::Draft;
use engine::{
    generate_schedule, grade_for_rounded, high_seed_hosts, market_salary, presets, rookie_scale,
    Conference, Contract, FaOffer, GameSim, Interest, League, OwnerTone, Phase, Player, PlayerId,
    PlayerTrait, PlayoffOutcome, Position, Ratings, Series, TeamBox, TeamId, TradeVerdict,
};
use rand::SeedableRng;
use std::collections::HashSet;

// ---------------------------------------------------------------------------
// Helpers
// ---------------------------------------------------------------------------

fn ratings_all(v: u8) -> Ratings {
    Ratings {
        layup: v,
        dunk: v,
        post: v,
        mid_range: v,
        three: v,
        free_throw: v,
        passing: v,
        ball_handling: v,
        basketball_iq: v,
        interior_defense: v,
        perimeter_defense: v,
        steal: v,
        block: v,
        rebounding: v,
        athleticism: v,
        stamina: v,
    }
}

fn player(id: u32, team: Option<TeamId>, ovr: u8, salary: u32, years: u8, age: u8) -> Player {
    Player {
        id,
        name: format!("Player {id}"),
        age,
        position: Position::SF,
        ratings: ratings_all(ovr),
        personality: PlayerTrait::Professional,
        suspended: 0,
        potential: ovr,
        team,
        draft_season: None,
        contract: Contract { salary, years },
    }
}

/// 32 teams of 14 players; player `i` plays for team `i / 14`, with an
/// overall that varies a little within each team.
fn sample_league(seed: u64) -> League {
    let mut players = Vec::new();
    for i in 0..(32 * 14) as u32 {
        let ovr = 50 + ((i * 7) % 30) as u8;
        let years = 1 + (i % 4) as u8;
        players.push(player(i, Some(i / 14), ovr, market_salary(ovr) / 4, years, 22 + (i % 12) as u8));
    }
    League::assemble(seed, &presets(), players)
}

fn game(home: TeamId, away: TeamId, home_score: u32, away_score: u32) -> GameSim {
    GameSim {
        home: TeamBox { team_id: home, score: home_score, lines: Vec::new() },
        away: TeamBox { team_id: away, score: away_score, lines: Vec::new() },
    }
}

/// Play out the whole regular season: the lower team id always wins.
fn play_season(l: &mut League) {
    for idx in 0..l.schedule.len() {
        let g = &l.schedule[idx];
        let (h, a) = (g.home, g.away);
        let sim = if h < a { game(h, a, 110, 100) } else { game(h, a, 95, 105) };
        l.record_game(idx, &sim);
    }
}

/// Play out the playoffs: the higher seed always wins.
fn play_playoffs(l: &mut League) {
    l.start_playoffs();
    let mut guard = 0;
    while l.playoff_gameday_begin() {
        let n = l.playoffs.as_ref().unwrap().rounds.last().unwrap().len();
        for idx in 0..n {
            let s = &l.playoffs.as_ref().unwrap().rounds.last().unwrap()[idx];
            if s.winner().is_some() {
                continue;
            }
            let high = s.high;
            let (h, a) = l.playoff_matchup(idx);
            let sim = if h == high { game(h, a, 101, 99) } else { game(h, a, 99, 101) };
            l.record_playoff_game(idx, &sim);
        }
        l.playoff_gameday_end();
        guard += 1;
        assert!(guard < 100);
    }
}

fn rosters_are_consistent(l: &League) {
    let mut seen = HashSet::new();
    for t in &l.teams {
        for pid in &t.roster {
            assert!(seen.insert(*pid), "player {pid} on two rosters");
            let p = &l.players[*pid as usize];
            assert_eq!(p.team, Some(t.id));
        }
    }
}

// ---------------------------------------------------------------------------
// Tests carried over
// ---------------------------------------------------------------------------

#[test]
fn series_needs_four_wins() {
    let mut s = Series::new(1, 8);
    assert!(!s.is_decided());
    s.high_wins = 4;
    assert_eq!(s.winner(), Some(1));
}

#[test]
fn home_layout_is_2_2_1_1_1() {
    let hosts: Vec<bool> = (1..=7).map(high_seed_hosts).collect();
    assert_eq!(hosts, vec![true, true, false, false, true, false, true]);
}

#[test]
fn every_team_plays_exactly_82() {
    let ids: Vec<TeamId> = (0..32).collect();
    let mut rng = rand::rngs::StdRng::seed_from_u64(7);
    let games = generate_schedule(&ids, &mut rng);

    let mut counts = vec![0u32; 32];
    for g in &games {
        counts[g.home as usize] += 1;
        counts[g.away as usize] += 1;
    }
    for (t, c) in counts.iter().enumerate() {
        assert_eq!(*c, 82, "team {t} has {c} games");
    }
    assert_eq!(games.len(), 32 * 82 / 2);
}

#[test]
fn no_team_plays_twice_in_a_day() {
    let ids: Vec<TeamId> = (0..32).collect();
    let mut rng = rand::rngs::StdRng::seed_from_u64(1);
    let games = generate_schedule(&ids, &mut rng);

    let mut by_day: std::collections::HashMap<u32, HashSet<TeamId>> = Default::default();
    for g in &games {
        let set = by_day.entry(g.day).or_default();
        assert!(set.insert(g.home), "team played twice on day {}", g.day);
        assert!(set.insert(g.away), "team played twice on day {}", g.day);
    }
}

#[test]
fn has_32_teams_balanced_16_16() {
    let all = presets();
    assert_eq!(all.len(), 32);
    let east = all.iter().filter(|p| p.conference == Conference::East).count();
    let west = all.iter().filter(|p| p.conference == Conference::West).count();
    assert_eq!(east, 16);
    assert_eq!(west, 16);
}

#[test]
fn includes_cincinnati_and_seattle() {
    let all = presets();
    assert!(all.iter().any(|p| p.location == "Cincinnati"));
    assert!(all.iter().any(|p| p.location == "Seattle"));
}

#[test]
fn abbrevs_unique() {
    let mut seen = HashSet::new();
    for p in presets() {
        assert!(seen.insert(p.abbrev), "duplicate abbrev {}", p.abbrev);
    }
}

// ---------------------------------------------------------------------------
// Formulas and labels
// ---------------------------------------------------------------------------

#[test]
fn market_salary_by_overall() {
    assert_eq!(market_salary(80), 29_000);
    assert_eq!(market_salary(70), 12_000);
    assert_eq!(market_salary(60), 6_600);
    assert_eq!(market_salary(50), 1_200);
    assert_eq!(market_salary(40), 1_200);
    assert_eq!(market_salary(99), 48_000);
}

#[test]
fn rookie_scale_by_pick() {
    assert_eq!(rookie_scale(1), 9_500);
    assert_eq!(rookie_scale(2), 9_370);
    assert_eq!(rookie_scale(64), 1_310);
    assert_eq!(rookie_scale(65), 1_200);
    assert_eq!(rookie_scale(0), 9_500);
}

#[test]
fn salary_strings() {
    assert_eq!(Contract { salary: 28_000, years: 3 }.salary_str(), "$28.0M");
    assert_eq!(Contract { salary: 1_250, years: 1 }.salary_str(), "$1.2M");
    assert_eq!(Contract { salary: 1_249, years: 1 }.salary_str(), "$1.2M");
    assert!(Contract { salary: 0, years: 0 }.is_expired());
}

#[test]
fn overall_of_uniform_ratings() {
    assert_eq!(ratings_all(50).overall(), 50);
    assert_eq!(ratings_all(99).overall(), 99);
    let p = player(0, None, 70, 0, 0, 25);
    assert_eq!(p.overall(), 70);
}

#[test]
fn grades_by_value() {
    assert_eq!(grade_for_rounded(95), "A+");
    assert_eq!(grade_for_rounded(85), "A");
    assert_eq!(grade_for_rounded(72), "B");
    assert_eq!(grade_for_rounded(55), "C-");
    assert_eq!(grade_for_rounded(49), "F");
}

#[test]
fn interest_labels() {
    assert_eq!(Interest::Eager.label(), "Eager");
    assert_eq!(Interest::NoOffer.label(), "\u{2014}");
}

#[test]
fn owner_tone_rules() {
    assert_eq!(engine::owner_tone(false, true, 10), OwnerTone::Displeased);
    assert_eq!(engine::owner_tone(true, false, -7), OwnerTone::Displeased);
    assert_eq!(engine::owner_tone(true, false, 5), OwnerTone::Pleased);
    assert_eq!(engine::owner_tone(true, true, 0), OwnerTone::Pleased);
    assert_eq!(engine::owner_tone(true, false, 0), OwnerTone::Neutral);
    assert_eq!(engine::expectation_phrase(6), "blew past");
    assert_eq!(engine::expectation_phrase(-6), "fell well short of");
    assert!(engine::deep_run(PlayoffOutcome::LostInRound(3)));
    assert!(!engine::deep_run(PlayoffOutcome::LostInRound(1)));
    assert_eq!(
        engine::owner_goal(PlayoffOutcome::MissedPlayoffs, true, true, true),
        Some("get this team into the playoffs")
    );
    assert_eq!(engine::owner_goal(PlayoffOutcome::WonChampionship, false, false, false), None);
    assert_eq!(
        engine::owner_goal(PlayoffOutcome::LostInRound(1), false, false, false),
        Some("reach the conference finals")
    );
}

// ---------------------------------------------------------------------------
// The league
// ---------------------------------------------------------------------------

#[test]
fn assembled_league_is_consistent() {
    let l = sample_league(3);
    assert_eq!(l.teams.len(), 32);
    assert_eq!(l.players.len(), 32 * 14);
    assert_eq!(l.phase, Phase::TeamSelect);
    assert_eq!(l.schedule.len(), 32 * 82 / 2);
    for t in &l.teams {
        assert_eq!(t.roster.len(), 14);
    }
    rosters_are_consistent(&l);
    // Every team holds its own 1st and 2nd for the next four drafts.
    assert_eq!(l.pick_assets.len(), 32 * 2 * 4);
    assert!(l.pick_assets.iter().all(|pk| pk.season >= l.season));
}

#[test]
fn season_records_and_standings() {
    let mut l = sample_league(5);
    l.select_team(0);
    assert!(l.can_trade());
    assert_eq!(l.current_day(), Some(0));
    play_season(&mut l);
    assert!(l.regular_season_complete());
    assert_eq!(l.current_day(), None);
    for t in &l.teams {
        assert_eq!(t.games_played(), 82);
    }
    // The lower id always won, so team 0 went 82-0 and tops the East.
    assert_eq!(l.teams[0].wins, 82);
    let east = engine::conference_standings(&l.teams, Conference::East);
    assert_eq!(east.len(), 16);
    assert_eq!(east[0].team_id, 0);
    assert_eq!(east[0].seed, 1);
    let seeds = engine::playoff_seeds(&l.teams, Conference::West);
    assert_eq!(seeds.len(), 8);
    assert_eq!(seeds[0], 16);
}

#[test]
fn playoffs_crown_a_champion() {
    let mut l = sample_league(6);
    l.select_team(0);
    play_season(&mut l);
    play_playoffs(&mut l);
    assert!(l.playoffs_complete());
    let po = l.playoffs.as_ref().unwrap();
    assert_eq!(po.rounds.len(), 4);
    assert_eq!(po.rounds[0].len(), 8);
    assert_eq!(po.rounds[3].len(), 1);
    // The top seeds win every series; team 0 (the best record) is champion.
    assert_eq!(po.champion, Some(0));
    assert_eq!(l.outcome_for(0), PlayoffOutcome::WonChampionship);
    assert_eq!(l.outcome_for(31), PlayoffOutcome::MissedPlayoffs);
    assert!(l.user_still_in_playoffs());
    let recap = l.season_recap().expect("recap exists");
    assert_eq!(recap.wins, 82);
    assert_eq!(recap.outcome, PlayoffOutcome::WonChampionship);
}

#[test]
fn contracts_tick_at_season_end() {
    let mut l = sample_league(8);
    l.select_team(0);
    play_season(&mut l);
    play_playoffs(&mut l);
    let before: Vec<Player> = l.players.clone();
    let awards = engine::Awards { mvp: Some(0), dpoy: None, roy: None };
    let note = engine::OwnerMessage { tone: OwnerTone::Pleased, body: String::from("ok") };
    l.close_season(awards, note);
    assert_eq!(l.phase, Phase::Offseason);
    assert_eq!(l.history.len(), 1);
    assert_eq!(l.history[0].champion_id, 0);
    for (i, p) in l.players.iter().enumerate() {
        let b = &before[i];
        if b.contract.years == 1 {
            assert_eq!(p.team, None);
            assert_eq!(p.contract.salary, 0);
        } else {
            assert_eq!(p.team, b.team);
            assert_eq!(p.contract.years, b.contract.years - 1);
        }
    }
    rosters_are_consistent(&l);
    // Player 0 has a career line and an MVP.
    let c = l.career(0).expect("career logged");
    assert_eq!(c.seasons.len(), 0);
    assert_eq!(c.count(engine::Honor::Mvp), 1);
    assert_eq!(c.count(engine::Honor::Champion), 1);
}

fn offseason_league(seed: u64) -> League {
    let mut l = sample_league(seed);
    l.select_team(3);
    play_season(&mut l);
    play_playoffs(&mut l);
    let awards = engine::Awards { mvp: None, dpoy: None, roy: None };
    let note = engine::OwnerMessage { tone: OwnerTone::Neutral, body: String::new() };
    l.close_season(awards, note);
    l
}

fn prospects(l: &League, n: u32) -> Vec<Player> {
    let base = l.players.len() as u32;
    (0..n).map(|k| player(base + k, None, 40 + (k % 40) as u8, 0, 0, 20)).collect()
}

#[test]
fn draft_fills_every_pick_with_distinct_players() {
    let mut l = offseason_league(9);
    let before = l.players.len();
    let class = prospects(&l, 70);
    let order: Vec<TeamId> = (0..32).rev().collect();
    l.open_draft(class, &order);
    assert_eq!(l.phase, Phase::Draft);
    assert_eq!(l.players.len(), before + 70);
    assert_eq!(l.season_stats.len(), before + 70);
    {
        let d = l.draft.as_ref().unwrap();
        assert_eq!(d.picks.len(), 64);
        assert_eq!(d.picks[0].overall, 1);
        assert_eq!(d.picks[0].team_id, 31);
        assert_eq!(d.picks[32].overall, 33);
        assert_eq!(d.picks[32].round, 2);
        assert_eq!(d.scout_points, 25);
        let r1: HashSet<TeamId> = d.picks.iter().filter(|p| p.round == 1).map(|p| p.team_id).collect();
        assert_eq!(r1.len(), 32);
    }
    // This season's pick records are spent.
    assert!(l.pick_assets.iter().all(|pk| pk.season > l.season));

    l.draft_sim_to_user();
    assert!(l.is_user_on_clock());
    let d: &Draft = l.draft.as_ref().unwrap();
    let on = d.on_clock;
    assert_eq!(d.picks[on].team_id, 3);
    // The best prospect left must be on the board; draft him.
    let pick = d.prospects[0];
    l.draft_user_pick(pick);
    assert_eq!(l.players[pick as usize].team, Some(3));
    assert!(l.teams[3].roster.contains(&pick));

    l.draft_sim_all();
    assert!(l.draft_complete());
    let d = l.draft.as_ref().unwrap();
    assert_eq!(d.prospects.len(), 70 - 64);
    let mut drafted = HashSet::new();
    for p in &d.picks {
        let pid = p.player_id.expect("pick made");
        assert!(drafted.insert(pid), "player drafted twice");
        let team = &l.teams[p.team_id as usize];
        assert!(team.roster.contains(&pid));
        let pl = &l.players[pid as usize];
        assert_eq!(pl.draft_season, Some(l.season));
        assert_eq!(pl.contract.years, 3);
        assert_eq!(pl.contract.salary, rookie_scale(p.overall));
    }
    rosters_are_consistent(&l);
}

#[test]
fn free_agency_offers_and_signings() {
    let mut l = offseason_league(10);
    let class = prospects(&l, 70);
    let order: Vec<TeamId> = (0..32).collect();
    l.open_draft(class, &order);
    l.draft_sim_all();
    l.enter_free_agency();
    assert_eq!(l.phase, Phase::FreeAgency);
    let pool = l.free_agency.as_ref().unwrap().pool.clone();
    assert!(!pool.is_empty(), "there should be free agents");
    // Best overall first.
    for w in pool.windows(2) {
        assert!(l.players[w[0] as usize].overall() >= l.players[w[1] as usize].overall());
    }
    for pid in &pool {
        assert_eq!(l.players[*pid as usize].team, None);
    }

    // The user's offers: clamped salary and years, at most six out.
    let target = pool[0];
    assert!(l.fa_user_offer(target, 100, 9));
    assert_eq!(l.fa_offer_count(), 1);
    let o = *l.free_agency.as_ref().unwrap().user_offer(target, 3).unwrap();
    assert_eq!((o.salary, o.years), (engine::MIN_SALARY, 5));
    assert!(l.fa_user_offer(target, 99_000, 0));
    assert_eq!(l.fa_offer_count(), 1);
    let o = *l.free_agency.as_ref().unwrap().user_offer(target, 3).unwrap();
    assert_eq!((o.salary, o.years), (engine::MAX_SALARY, 1));
    l.fa_clear_user_offer(target);
    assert_eq!(l.fa_offer_count(), 0);
    assert!(!l.fa_user_offer(123_456, 5_000, 2));

    // CPU bids: every bid is the player's market salary and each team bids at
    // most twice.
    let sorted = l.fa_pool_by_overall();
    let offers = l.fa_cpu_offers(&sorted);
    for (pid, o) in &offers {
        assert_eq!(o.salary, market_salary(l.players[*pid as usize].overall()));
        assert!(o.team != 3);
    }
    for t in 0..32u32 {
        assert!(offers.iter().filter(|(_, o)| o.team == t).count() <= 2);
    }

    // Sign the first bid on the two best players.
    let mut budget = l.fa_budget();
    let mut signings: Vec<(PlayerId, FaOffer)> = Vec::new();
    for pid in sorted.iter().take(2) {
        if let Some((_, o)) = offers.iter().find(|(p, _)| p == pid) {
            if budget.allows(o) {
                budget.commit(o);
                signings.push((*pid, *o));
            }
        }
    }
    let round = l.free_agency.as_ref().unwrap().round;
    l.apply_fa_signings(&signings);
    let fa = l.free_agency.as_ref().unwrap();
    assert_eq!(fa.round, round + 1);
    assert!(fa.offers.is_empty());
    assert_eq!(fa.log.len(), signings.len());
    for (pid, o) in &signings {
        assert_eq!(l.players[*pid as usize].team, Some(o.team));
        assert!(l.teams[o.team as usize].roster.contains(pid));
        assert!(!fa.pool.contains(pid));
    }
    rosters_are_consistent(&l);

    let season = l.season;
    l.fa_finish();
    assert_eq!(l.phase, Phase::RegularSeason);
    assert!(l.free_agency.is_none());
    assert_eq!(l.season, season + 1);
    for t in &l.teams {
        assert_eq!(t.games_played(), 0);
        if t.id != 3 {
            assert!(t.roster.len() >= 12);
        }
    }
    rosters_are_consistent(&l);
    assert!(l.pick_assets.iter().all(|pk| pk.season >= l.season));
}

#[test]
fn trade_rules_and_execution() {
    let mut l = sample_league(4);
    l.select_team(0);
    let user_roster = l.teams[0].roster.clone();
    let other_roster = l.teams[1].roster.clone();

    assert_eq!(l.trade_verdict(1, &[], &[], &[], &[]), TradeVerdict::NothingOffered);
    assert_eq!(
        l.trade_verdict(1, &[], &[], &other_roster[0..2], &[]),
        TradeVerdict::RosterOver
    );
    assert_eq!(
        l.trade_verdict(1, &user_roster, &[], &[], &[]),
        TradeVerdict::RosterOver
    );
    let verdict = l.trade_verdict(1, &user_roster[0..1], &[], &other_roster[0..1], &[]);
    assert_eq!(verdict, TradeVerdict::Legal);
    assert_eq!(TradeVerdict::RosterUnder.message(), "Both teams must keep at least one player.");

    // The CPU says no: nothing moves.
    assert!(!l.execute_trade(1, &user_roster[0..1], &other_roster[0..1], false));
    assert_eq!(l.teams[0].roster, user_roster);
    // Someone else's player can't be given away.
    assert!(!l.execute_trade(1, &other_roster[0..1], &user_roster[0..1], true));

    let (give, get) = (user_roster[0], other_roster[0]);
    assert!(l.execute_trade(1, &[give], &[get], true));
    assert_eq!(l.players[give as usize].team, Some(1));
    assert_eq!(l.players[get as usize].team, Some(0));
    assert!(l.teams[0].roster.contains(&get) && !l.teams[0].roster.contains(&give));
    assert!(l.teams[1].roster.contains(&give) && !l.teams[1].roster.contains(&get));
    assert_eq!(l.teams[0].roster.len(), 14);
    rosters_are_consistent(&l);

    // Picks change hands too.
    let mine: Vec<u32> = l.picks_owned_by(0).iter().map(|pk| pk.id).collect();
    assert_eq!(mine.len(), 8);
    let first = l.picks_owned_by(0)[0];
    assert_eq!((first.season, first.round), (1, 1));
    assert_eq!(l.pick_label(first.id), "1 1st (ATL)");
    assert_eq!(l.pick_label(999_999), "pick");
    let theirs = l.picks_owned_by(1)[1];
    assert!(l.execute_trade_full(1, &[], &[first.id], &[], &[theirs.id], true));
    assert_eq!(l.picks_owned_by(0).len(), 8);
    assert!(l.picks_owned_by(1).iter().any(|pk| pk.id == first.id));
    assert!(l.picks_owned_by(0).iter().any(|pk| pk.id == theirs.id));
}

#[test]
fn salary_matching_rule() {
    let l = sample_league(2);
    // Over the cap after the deal: incoming may be at most 125% + 1,000.
    assert!(l.salary_legal(150_000, 11_000, 8_000));
    assert!(!l.salary_legal(150_000, 11_001, 8_000));
    assert!(l.salary_legal(140_000, 50_000, 0));
}

#[test]
fn stadium_and_finances() {
    let mut l = sample_league(12);
    l.select_team(2);
    l.set_user_finances(5, 500, 10, 50_000, 8_000, 9_000);
    let f = l.teams[2].finances;
    assert_eq!(f.ticket_price, 10);
    assert_eq!(f.concession_price, 100);
    assert_eq!(f.training, 40_000);
    assert_eq!(f.coaching, 10);
    assert!(!l.can_upgrade_stadium(2, false, false));
    assert!(l.can_upgrade_stadium(2, true, false));
}

#[test]
fn stadium_upgrade_counts_expansions() {
    let mut l = sample_league(14);
    l.select_team(2);
    let f0 = l.teams[2].finances;
    assert!(!l.upgrade_stadium(false, false));
    assert_eq!(l.teams[2].finances.stadium_upgrades, f0.stadium_upgrades);
    assert!(l.upgrade_stadium(true, false));
    let f1 = l.teams[2].finances;
    assert_eq!(f1.stadium_upgrades, f0.stadium_upgrades + 1);
    assert_eq!(f1.capacity, (f0.capacity + 3_000).min(30_000));
    assert_eq!(f1.stadium_age, 0);
    assert!(l.upgrade_stadium(false, true));
    assert_eq!(l.teams[2].finances.stadium_upgrades, f0.stadium_upgrades + 2);
}

#[test]
fn box_score_helpers() {
    let mut tb = TeamBox { team_id: 0, score: 10, lines: Vec::new() };
    tb.lines.push(engine::PlayerLine {
        player_id: 0, min: 30, pts: 10, fgm: 4, fga: 8, tpm: 0, tpa: 1, ftm: 2, fta: 2,
        oreb: 1, dreb: 2, ast: 3, stl: 0, blk: 0, tov: 1,
    });
    engine::bump_score(&mut tb);
    assert_eq!(tb.score, 12);
    assert_eq!(tb.lines[0].pts, 12);
    assert_eq!(tb.lines[0].fgm, 5);
    assert_eq!(tb.lines[0].fga, 9);

    let line = |pid: u32, fgm: u32| engine::PlayerLine {
        player_id: pid, min: 30, pts: 10, fgm, fga: 8, tpm: 0, tpa: 0, ftm: 10 - 2 * fgm, fta: 10,
        oreb: 0, dreb: 0, ast: 0, stl: 0, blk: 0, tov: 0,
    };
    let mut g = GameSim {
        home: TeamBox { team_id: 0, score: 10, lines: vec![line(0, 4)] },
        away: TeamBox { team_id: 1, score: 10, lines: vec![line(1, 3)] },
    };
    let ot = engine::break_tie(&mut g);
    assert_eq!(ot, Some(true));
    assert_eq!((g.home.score, g.away.score), (12, 10));
    let mut h = game(0, 1, 90, 80);
    assert_eq!(engine::break_tie(&mut h), None);
}

// ---------------------------------------------------------------------------
// Laws on concrete values
// ---------------------------------------------------------------------------

#[test]
fn market_salary_never_falls_with_overall() {
    for o in 0..99u8 {
        assert!(market_salary(o) <= market_salary(o + 1), "overall {o}");
    }
}

#[test]
fn rookie_scale_never_rises_with_pick() {
    for p in 1..100u8 {
        assert!(rookie_scale(p + 1) <= rookie_scale(p), "pick {p}");
        assert!(rookie_scale(p) >= engine::MIN_SALARY && rookie_scale(p) <= 9_500);
    }
}

#[test]
fn user_offers_are_capped_at_six() {
    let mut l = offseason_league(14);
    l.enter_free_agency();
    let pool = l.free_agency.as_ref().unwrap().pool.clone();
    assert!(pool.len() > 7);
    for pid in pool.iter().take(6) {
        assert!(l.fa_user_offer(*pid, 1_500, 2));
    }
    assert_eq!(l.fa_offer_count(), 6);
    // A seventh player is refused; replacing an offer is fine.
    assert!(!l.fa_user_offer(pool[6], 1_500, 2));
    assert!(l.fa_user_offer(pool[0], 2_000, 3));
    assert_eq!(l.fa_offer_count(), 6);
}

#[test]
fn different_seeds_give_different_schedules() {
    let ids: Vec<TeamId> = (0..32).collect();
    let a = generate_schedule(&ids, &mut rand::rngs::StdRng::seed_from_u64(1));
    let b = generate_schedule(&ids, &mut rand::rngs::StdRng::seed_from_u64(2));
    assert!(a.iter().zip(b.iter()).any(|(x, y)| (x.home, x.away) != (y.home, y.away)));
}

#[test]
fn potential_draws_vary_and_stay_in_range() {
    let mut seen = HashSet::new();
    for seed in 0..40u64 {
        let mut rng = rand::rngs::StdRng::seed_from_u64(seed);
        let p = engine::gen_potential(60, 20, &mut rng);
        assert!((66..=86).contains(&p));
        seen.insert(p);
        // Veterans have no room left.
        assert_eq!(engine::gen_potential(60, 30, &mut rng), 60);
        // The ceiling is 99.
        assert!(engine::gen_potential(95, 19, &mut rng) == 99);
    }
    assert!(seen.len() > 1);
}

#[test]
fn cpu_picks_come_from_the_top_of_the_board() {
    let mut l = offseason_league(15);
    let class = prospects(&l, 70);
    let order: Vec<TeamId> = (0..32).collect();
    l.select_team(31);
    l.phase = Phase::Offseason;
    l.open_draft(class, &order);
    let mut board: Vec<u8> = l.draft.as_ref().unwrap().prospects.iter().map(|p| l.players[*p as usize].overall()).collect();
    board.sort_unstable_by(|a, b| b.cmp(a));
    l.draft_sim_to_user();
    let d = l.draft.as_ref().unwrap();
    // The user (team 31) picks last in the first round, so 31 picks were made.
    assert_eq!(d.on_clock, 31);
    let first = d.picks[0].player_id.unwrap();
    assert!(l.players[first as usize].overall() >= board[2]);
    for p in &d.picks[0..31] {
        assert!(p.team_id != 31);
    }
}

#[test]
fn draft_order_lottery_then_playoff_teams_worst_first() {
    let mut l = sample_league(5);
    for t in l.teams.iter_mut() {
        t.wins = t.id;
        t.losses = 82 - t.id;
    }
    let mut rng = rand::rngs::StdRng::seed_from_u64(3);
    let order = l.draft_order(&mut rng);
    assert_eq!(order.len(), 32);
    let field: Vec<TeamId> = (8..16).chain(24..32).collect();
    assert_eq!(order[16..].to_vec(), field);
    let mut lottery: Vec<TeamId> = order[..16].to_vec();
    lottery.sort();
    let pool: Vec<TeamId> = (0..8).chain(16..24).collect();
    assert_eq!(lottery, pool);
}

#[test]
fn lottery_draw_lands_on_first_slot_reaching_it() {
    let w: Vec<u32> = vec![3, 2, 1];
    let m5 = ((1u64 << 53) / 6) * 5; // just under 5 of the 6 tickets
    let words: Vec<u64> = vec![0, 1u64 << 63, (1u64 << 63) + (1 << 11), m5 << 11, u64::MAX];
    let got: Vec<usize> = words.iter().map(|d| engine::lottery::lottery_index(&w, *d)).collect();
    assert_eq!(got, vec![0, 0, 1, 1, 2]);
}

#[test]
fn record_order_is_worst_first_and_stable() {
    let mut l = sample_league(6);
    for t in l.teams.iter_mut() {
        t.wins = 0;
        t.losses = 0;
    }
    l.teams[4].wins = 10;
    l.teams[4].losses = 10;
    l.teams[2].wins = 5;
    l.teams[2].losses = 5;
    l.teams[7].wins = 1;
    l.teams[7].losses = 9;
    let order = engine::standings::record_order(&l.teams);
    assert_eq!(order.len(), 32);
    // No games counts as 0%; 1-9 beats them; 5-5 and 10-10 tie on percentage, fewer wins first.
    let mut expect: Vec<usize> = (0..32).filter(|&i| i != 2 && i != 4 && i != 7).collect();
    expect.extend([7, 2, 4]);
    assert_eq!(order, expect);
}

#[test]
fn fa_finish_fills_cpu_rosters_to_exactly_twelve() {
    let mut l = offseason_league(12);
    let class = prospects(&l, 70);
    let order: Vec<TeamId> = (0..32).collect();
    l.open_draft(class, &order);
    l.draft_sim_all();
    l.enter_free_agency();
    // Thin out one CPU roster so the fill has work to do.
    let cut: Vec<PlayerId> = l.teams[5].roster.drain(4..).collect();
    for pid in &cut {
        l.players[*pid as usize].team = None;
        l.free_agency.as_mut().unwrap().pool.push(*pid);
    }
    let before: Vec<usize> = l.teams.iter().map(|t| t.roster.len()).collect();
    let pool_size = l.free_agency.as_ref().unwrap().pool.len();
    l.fa_finish();
    let needed: usize = (0..32).filter(|&t| t != 3).map(|t| 12usize.saturating_sub(before[t])).sum();
    assert!(pool_size >= needed, "the pool is deep enough for every fill");
    for t in 0..32usize {
        let after = l.teams[t].roster.len();
        if t == 3 || before[t] >= 12 {
            assert_eq!(after, before[t]);
        } else {
            assert_eq!(after, 12);
        }
    }
    assert_eq!(l.teams[5].roster.len(), 12);
    rosters_are_consistent(&l);
}

#[test]
fn every_series_goes_four_to_seven_games() {
    let mut l = sample_league(13);
    l.select_team(0);
    play_season(&mut l);
    play_playoffs(&mut l);
    assert!(l.playoffs_complete());
    let po = l.playoffs.as_ref().unwrap();
    let sizes: Vec<usize> = po.rounds.iter().map(|r| r.len()).collect();
    assert_eq!(sizes, vec![8, 4, 2, 1]);
    for round in &po.rounds {
        for s in round {
            assert!((4..=7).contains(&s.games_played()));
            assert_eq!(s.games_played(), (s.high_wins + s.low_wins) as usize);
            assert!(s.winner().is_some());
        }
    }
}

#[test]
fn accumulate_stats_sums_repeated_lines() {
    let zero = engine::SeasonStats {
        gp: 0, min: 0, pts: 0, fgm: 0, fga: 0, tpm: 0, tpa: 0, ftm: 0, fta: 0,
        oreb: 0, dreb: 0, ast: 0, stl: 0, blk: 0, tov: 0,
    };
    let mut stats = vec![zero; 3];
    let line = |pid: u32, pts: u32| engine::PlayerLine {
        player_id: pid, min: 10, pts, fgm: 1, fga: 2, tpm: 0, tpa: 0, ftm: 0, fta: 0,
        oreb: 0, dreb: 1, ast: 0, stl: 0, blk: 0, tov: 0,
    };
    let tb = TeamBox { team_id: 0, score: 0, lines: vec![line(1, 4), line(2, 6), line(1, 5)] };
    engine::accumulate_stats(&mut stats, &tb);
    assert_eq!(stats[0].gp, 0);
    assert_eq!(stats[1].gp, 2);
    assert_eq!(stats[1].pts, 9);
    assert_eq!(stats[1].min, 20);
    assert_eq!(stats[1].dreb, 2);
    assert_eq!(stats[2].gp, 1);
    assert_eq!(stats[2].pts, 6);
}

#[test]
fn salary_string_matches_one_decimal_formatting() {
    let shown = |s: u32| Contract { salary: s, years: 1 }.salary_str();
    assert_eq!(shown(1150), "$1.1M");
    assert_eq!(shown(1250), "$1.2M");
    assert_eq!(shown(1350), "$1.4M");
    assert_eq!(shown(1750), "$1.8M");
    assert_eq!(shown(28_000), "$28.0M");
    let mut samples: Vec<u32> = (0..=120_000).collect();
    samples.extend([u32::MAX, u32::MAX - 50, 4_000_000_050, 123_456_750, 99_999_950]);
    for s in samples {
        assert_eq!(shown(s), format!("${:.1}M", s as f64 / 1000.0), "salary {s}");
    }
}

fn quiet_report(expected_wins: i32) -> engine::OwnerReport {
    engine::OwnerReport {
        expected_wins,
        leaky_defense: false,
        cold_offense: false,
        poor_shooting: false,
        leader: None,
        profit: 0,
        unmet_demand: false,
        fans_tuning_out: false,
        fans_electric: false,
    }
}

#[test]
fn owner_verdict_grace_years_then_champion_then_tone() {
    assert_eq!(engine::owner_verdict(3, true, true, true, 20), OwnerTone::TooEarly);
    assert_eq!(engine::owner_verdict(1, false, false, false, -30), OwnerTone::TooEarly);
    assert_eq!(engine::owner_verdict(4, true, true, false, -20), OwnerTone::Pleased);
    assert_eq!(engine::owner_verdict(4, false, false, false, 10), OwnerTone::Displeased);
    assert_eq!(engine::owner_verdict(9, false, true, false, 0), OwnerTone::Neutral);
}

#[test]
fn year_over_year_lines() {
    assert_eq!(engine::year_over_year_note(50, 46, 36), " That's a real step up from last year's 46-36.");
    assert_eq!(engine::year_over_year_note(49, 46, 36), " Right about where we landed last year (46-36).");
    assert_eq!(engine::year_over_year_note(43, 46, 36), " Right about where we landed last year (46-36).");
    assert_eq!(engine::year_over_year_note(42, 46, 36), " We slid back from last year's 46-36.");
}

#[test]
fn owner_message_cases() {
    let mut l = sample_league(15);
    let m = l.evaluate_owner(&quiet_report(41));
    assert_eq!(m.tone, OwnerTone::Neutral);
    assert_eq!(m.body, "");

    l.select_team(0);
    let m = l.evaluate_owner(&quiet_report(41));
    assert_eq!(m.tone, OwnerTone::TooEarly);
    assert_eq!(
        m.body,
        "It's only year 1. I'm not going to judge you yet \u{2014} take your time and build me something special."
    );

    l.season = 5;
    l.teams[0].wins = 30;
    l.teams[0].losses = 52;
    l.teams[0].finances.stadium_age = 30;
    let mut r = quiet_report(41);
    r.profit = -30_500;
    r.fans_electric = true;
    r.leader = Some(("Ann Bell".to_string(), "24.3".to_string()));
    let m = l.evaluate_owner(&r);
    assert_eq!(m.tone, OwnerTone::Displeased);
    assert_eq!(
        m.body,
        "At 30-52, you fell well short of the 41 wins I projected for this roster. \
         Watching the playoffs from home stings. Ann Bell leading us at 24.3 a night was a bright spot. \
         On the business side we bled $30M this year \u{2014} I can't keep covering losses like that. \
         The city is electric \u{2014} I've never seen fan interest this high. \
         One more thing: the building is 30 years old and showing it \u{2014} we should look at a renovation. \
         Next season, I want you to get this team into the playoffs."
    );
}

#[test]
fn settling_a_round_respects_roster_spots_and_cap_space() {
    let offer = |team: u32, salary: u32| FaOffer { team, salary, years: 2 };
    let budget = engine::FaBudget { room: vec![1, 0, 2], space: vec![5_000, 9_000, 1_000] };
    let choices = vec![
        engine::FaChoice { player: 10, ranked: vec![offer(1, 1_000), offer(0, 3_000)] },
        engine::FaChoice { player: 11, ranked: vec![offer(0, 1_000), offer(2, 1_500), offer(2, 800)] },
        engine::FaChoice { player: 12, ranked: vec![] },
        engine::FaChoice { player: 13, ranked: vec![offer(2, 100)] },
        engine::FaChoice { player: 14, ranked: vec![offer(2, 50)] },
        engine::FaChoice { player: 15, ranked: vec![offer(7, 50)] },
    ];
    let signed = budget.settle(&choices);
    let got: Vec<(u32, u32, u32)> = signed.iter().map(|(p, o)| (*p, o.team, o.salary)).collect();
    assert_eq!(got, vec![(10, 0, 3_000), (11, 2, 800), (13, 2, 100)]);
}

fn float_overall(v: &[u8; 16]) -> u8 {
    let w = [0.9, 0.6, 0.5, 0.8, 1.1, 0.3, 0.85, 0.85, 0.7, 0.8, 0.9, 0.5, 0.5, 0.7, 0.7, 0.3];
    let mut s = v[0] as f64 * w[0];
    for k in 1..16 {
        s = s + v[k] as f64 * w[k];
    }
    (s / 11.0).round() as u8
}

fn ratings_of(v: &[u8; 16]) -> Ratings {
    Ratings {
        layup: v[0], dunk: v[1], post: v[2], mid_range: v[3], three: v[4], free_throw: v[5],
        passing: v[6], ball_handling: v[7], basketball_iq: v[8], interior_defense: v[9],
        perimeter_defense: v[10], steal: v[11], block: v[12], rebounding: v[13], athleticism: v[14],
        stamina: v[15],
    }
}

#[test]
fn overall_matches_double_precision_weighting() {
    let witness: [u8; 16] = [63, 85, 44, 50, 50, 48, 64, 34, 57, 46, 75, 63, 48, 83, 75, 36];
    assert_eq!(ratings_of(&witness).overall(), 58);
    let mut state: u64 = 0x9E37_79B9_7F4A_7C15;
    for _ in 0..50_000 {
        let mut v = [0u8; 16];
        for x in v.iter_mut() {
            state = state.wrapping_mul(6364136223846793005).wrapping_add(1442695040888963407);
            *x = (state >> 56) as u8;
        }
        assert_eq!(ratings_of(&v).overall(), float_overall(&v), "ratings {:?}", v);
    }
    for a in 0..=255u8 {
        let v = [a; 16];
        assert_eq!(ratings_of(&v).overall(), float_overall(&v));
    }
}

#[test]
fn finals_mvp_scores_in_double_precision() {
    let mut l = sample_league(16);
    let zero = engine::SeasonStats {
        gp: 0, min: 0, pts: 0, fgm: 0, fga: 0, tpm: 0, tpa: 0, ftm: 0, fta: 0,
        oreb: 0, dreb: 0, ast: 0, stl: 0, blk: 0, tov: 0,
    };
    l.finals_stats = vec![zero; l.players.len()];
    let a = l.teams[0].roster[0] as usize;
    let b = l.teams[0].roster[1] as usize;
    // 0 + 5 * 0.7 = 3.5, while 0 + 2 * 0.7 + 3 * 0.7 = 3.4999999999999996.
    l.finals_stats[a].gp = 1;
    l.finals_stats[a].dreb = 5;
    l.finals_stats[b].gp = 1;
    l.finals_stats[b].dreb = 2;
    l.finals_stats[b].ast = 3;
    assert!(0.0 + 2.0 * 0.7 + 3.0 * 0.7 < 0.0 + 5.0 * 0.7);
    assert_eq!(l.compute_finals_mvp(0), Some(a as PlayerId));
}

fn float_lottery(pool: &[TeamId], words: &[u64]) -> Vec<TeamId> {
    let mut pool = pool.to_vec();
    let n = pool.len();
    let mut weights: Vec<f64> = (0..n).map(|i| (n - i) as f64).collect();
    let mut out = Vec::new();
    for w in words {
        let total: f64 = weights.iter().sum();
        let u = (1.0 / ((1u64 << 53) as f64)) * ((w >> 11) as f64);
        let mut r = u * total;
        let mut idx = 0;
        for (i, wt) in weights.iter().enumerate() {
            r -= *wt;
            if r <= 0.0 {
                idx = i;
                break;
            }
        }
        out.push(pool.remove(idx));
        weights.remove(idx);
    }
    out
}

#[test]
fn lottery_from_draws_weights_worst_records_heaviest() {
    let pool: Vec<TeamId> = vec![5, 6, 7];
    // Tickets 3, 2, 1: the top of the range lands on the best team (7), the
    // bottom on the worst (5); exactly half way (3 of 6) is still team 5's.
    assert_eq!(engine::lottery::lottery_from_draws(&pool, &vec![u64::MAX, 0, 0]), vec![7, 5, 6]);
    assert_eq!(engine::lottery::lottery_from_draws(&pool, &vec![0, 0, 0]), vec![5, 6, 7]);
    assert_eq!(engine::lottery::lottery_from_draws(&pool, &vec![1u64 << 63, 0, 0]), vec![5, 6, 7]);
    assert_eq!(engine::lottery::lottery_from_draws(&pool, &vec![(1u64 << 63) + (1 << 11), 0, 0]), vec![6, 5, 7]);
    let mut state: u64 = 7;
    for n in 1..=16usize {
        let pool: Vec<TeamId> = (0..n as u32).map(|t| 100 + t).collect();
        for _ in 0..400 {
            let words: Vec<u64> = (0..n)
                .map(|_| {
                    state = state.wrapping_mul(6364136223846793005).wrapping_add(1442695040888963407);
                    state
                })
                .collect();
            assert_eq!(engine::lottery::lottery_from_draws(&pool, &words), float_lottery(&pool, &words));
        }
    }
}

#[test]
fn fa_round_signs_within_limits_from_the_round_offers() {
    let mut l = offseason_league(17);
    let class = prospects(&l, 70);
    let order: Vec<TeamId> = (0..32).collect();
    l.open_draft(class, &order);
    l.draft_sim_all();
    l.enter_free_agency();
    let pool = l.fa_pool_by_overall();
    assert!(l.fa_user_offer(pool[0], 30_000, 3));
    let offers = l.fa_cpu_offers(&pool);
    let ranking: Vec<Vec<usize>> = pool
        .iter()
        .map(|pid| (0..offers.len()).filter(|k| offers[*k].0 == *pid).collect())
        .collect();
    let before: Vec<usize> = l.teams.iter().map(|t| t.roster.len()).collect();
    let round = l.free_agency.as_ref().unwrap().round;
    let signed = l.fa_round(&ranking);
    assert!(!signed.is_empty());
    for (pid, o) in &signed {
        assert!(offers.iter().any(|(p, x)| p == pid && x.team == o.team && x.salary == o.salary && x.years == o.years));
        if o.team != 3 {
            let p = &l.players[*pid as usize];
            assert_eq!(o.salary, market_salary(l.players[*pid as usize].overall()));
            assert_eq!(p.team, Some(o.team));
        }
    }
    for t in 0..32 {
        assert!(l.teams[t].roster.len() <= before[t].max(15));
    }
    let fa = l.free_agency.as_ref().unwrap();
    assert_eq!(fa.round, round + 1);
    assert!(fa.offers.is_empty());
    rosters_are_consistent(&l);
}
