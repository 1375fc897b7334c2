//! The owner's after-season judgment: the mood he is in and the stock
//! phrases of his note, given how the season went against what he expected
//! of the roster.

use vstd::prelude::*;
use crate::league::{League, OwnerMessage, OwnerTone, PlayoffOutcome};
use crate::league_playoffs::outcome_of;
use crate::text::{decimal, decimal_string, decimal_string_wide, signed_decimal, signed_string};

verus! {

/// The owner's mood: displeased when the team missed the playoffs or fell
/// seven or more wins short of his projection; pleased when it beat the
/// projection by five or more or made a deep run (conference finals or
/// Finals); neutral otherwise.
pub open spec fn tone_of(made_playoffs: bool, deep_run: bool, win_diff: int) -> OwnerTone {
    if !made_playoffs || win_diff <= -7 {
        OwnerTone::Displeased
    } else if win_diff >= 5 || deep_run {
        OwnerTone::Pleased
    } else {
        OwnerTone::Neutral
    }
}

/// The owner's mood after a season (see `tone_of`); `win_diff` is actual
/// wins minus the wins he projected.
pub fn owner_tone(made_playoffs: bool, deep_run: bool, win_diff: i32) -> (t: OwnerTone)
    ensures
        t == tone_of(made_playoffs, deep_run, win_diff as int),
{
    if !made_playoffs || win_diff <= -7 {
        OwnerTone::Displeased
    } else if win_diff >= 5 || deep_run {
        OwnerTone::Pleased
    } else {
        OwnerTone::Neutral
    }
}

/// A deep run: the season ended in the conference finals or the Finals.
pub open spec fn is_deep_run(o: PlayoffOutcome) -> bool {
    o == PlayoffOutcome::LostInRound(2) || o == PlayoffOutcome::LostInRound(3)
}

/// Did the season end in the conference finals or the Finals?
pub fn deep_run(o: PlayoffOutcome) -> (b: bool)
    ensures
        b == is_deep_run(o),
{
    match o {
        PlayoffOutcome::LostInRound(r) => r == 2 || r == 3,
        _ => false,
    }
}

pub open spec fn expectation_text(win_diff: int) -> Seq<char> {
    if win_diff >= 6 { "blew past"@ }
    else if win_diff >= 1 { "edged past"@ }
    else if win_diff >= -5 { "came up just shy of"@ }
    else { "fell well short of"@ }
}

/// How the record compared with the owner's projection, in his words.
pub fn expectation_phrase(win_diff: i32) -> (s: &'static str)
    ensures
        s@ == expectation_text(win_diff as int),
{
    if win_diff >= 6 { "blew past" }
    else if win_diff >= 1 { "edged past" }
    else if win_diff >= -5 { "came up just shy of" }
    else { "fell well short of" }
}

pub open spec fn postseason_text(o: PlayoffOutcome) -> Seq<char> {
    match o {
        PlayoffOutcome::MissedPlayoffs => " Watching the playoffs from home stings."@,
        PlayoffOutcome::LostInRound(r) => if r == 0 {
            " A first-round exit isn't this group's ceiling."@
        } else if r == 1 {
            " Bowing out in the second round left meat on the bone."@
        } else if r == 2 {
            " A conference-finals run was a genuine step forward."@
        } else if r == 3 {
            " So close in the Finals \u{2014} I can taste it."@
        } else {
            ""@
        },
        PlayoffOutcome::WonChampionship => ""@,
    }
}

/// The owner's line about the postseason.
pub fn postseason_note(o: PlayoffOutcome) -> (s: &'static str)
    ensures
        s@ == postseason_text(o),
{
    match o {
        PlayoffOutcome::MissedPlayoffs => " Watching the playoffs from home stings.",
        PlayoffOutcome::LostInRound(r) => if r == 0 {
            " A first-round exit isn't this group's ceiling."
        } else if r == 1 {
            " Bowing out in the second round left meat on the bone."
        } else if r == 2 {
            " A conference-finals run was a genuine step forward."
        } else if r == 3 {
            " So close in the Finals \u{2014} I can taste it."
        } else {
            ""
        },
        PlayoffOutcome::WonChampionship => "",
    }
}

/// What the owner wants improved next season. Missing the playoffs trumps
/// everything; then a leaky defense, a cold offense, poor shooting (each
/// judged by the caller from the season's numbers); then the next playoff
/// step.
pub open spec fn goal_text(o: PlayoffOutcome, leaky_defense: bool, cold_offense: bool, poor_shooting: bool)
    -> Option<Seq<char>> {
    if o == PlayoffOutcome::MissedPlayoffs {
        Some("get this team into the playoffs"@)
    } else if leaky_defense {
        Some("tighten up the defense \u{2014} we give up too many points"@)
    } else if cold_offense {
        Some("find a way to put more points on the board"@)
    } else if poor_shooting {
        Some("get more shooting into this lineup"@)
    } else {
        match o {
            PlayoffOutcome::LostInRound(r) => if r == 0 {
                Some("get out of the first round next year"@)
            } else if r == 1 {
                Some("reach the conference finals"@)
            } else if r == 2 {
                Some("break through to the Finals"@)
            } else if r == 3 {
                Some("we were right there \u{2014} finish the job and win it all"@)
            } else {
                None
            },
            _ => None,
        }
    }
}

/// The single thing the owner wants improved, or `None` if nothing glaring.
pub fn owner_goal(o: PlayoffOutcome, leaky_defense: bool, cold_offense: bool, poor_shooting: bool)
    -> (g: Option<&'static str>)
    ensures
        match g {
            Some(s) => goal_text(o, leaky_defense, cold_offense, poor_shooting) == Some(s@),
            None => goal_text(o, leaky_defense, cold_offense, poor_shooting) is None,
        },
{
    if o == PlayoffOutcome::MissedPlayoffs {
        return Some("get this team into the playoffs");
    }
    if leaky_defense {
        return Some("tighten up the defense \u{2014} we give up too many points");
    }
    if cold_offense {
        return Some("find a way to put more points on the board");
    }
    if poor_shooting {
        return Some("get more shooting into this lineup");
    }
    match o {
        PlayoffOutcome::LostInRound(r) => if r == 0 {
            Some("get out of the first round next year")
        } else if r == 1 {
            Some("reach the conference finals")
        } else if r == 2 {
            Some("break through to the Finals")
        } else if r == 3 {
            Some("we were right there \u{2014} finish the job and win it all")
        } else {
            None
        },
        _ => None,
    }
}

// ---------------------------------------------------------------------------
// The verdict and the note
// ---------------------------------------------------------------------------

/// The owner's verdict on a season: he withholds judgment for the first
/// three seasons, a championship always pleases him, and otherwise his mood
/// is `tone_of`.
pub open spec fn verdict_of(season: int, user_is_champion: bool, made_playoffs: bool, deep_run: bool, win_diff: int)
    -> OwnerTone {
    if season <= 3 {
        OwnerTone::TooEarly
    } else if user_is_champion {
        OwnerTone::Pleased
    } else {
        tone_of(made_playoffs, deep_run, win_diff)
    }
}

/// The owner's verdict on a season (see `verdict_of`).
pub fn owner_verdict(season: u32, user_is_champion: bool, made_playoffs: bool, deep_run: bool, win_diff: i32)
    -> (t: OwnerTone)
    ensures
        t == verdict_of(season as int, user_is_champion, made_playoffs, deep_run, win_diff as int),
{
    if season <= 3 {
        OwnerTone::TooEarly
    } else if user_is_champion {
        OwnerTone::Pleased
    } else {
        owner_tone(made_playoffs, deep_run, win_diff)
    }
}

/// A deep run pleases the owner: after the grace years, a team that lost in
/// the conference finals or the Finals is pleased unless it fell seven or
/// more wins short of his projection; one that went out in the first or
/// second round and landed within a few wins of it (from six short to four
/// over) leaves him neutral, and a team that missed the playoffs displeases
/// him.
pub proof fn lemma_deep_run_pleases(season: int, r: usize, win_diff: int)
    requires
        season > 3,
    ensures
        (r == 2 || r == 3) && win_diff > -7 ==> verdict_of(season, false, true,
            is_deep_run(PlayoffOutcome::LostInRound(r)), win_diff) == OwnerTone::Pleased,
        (r == 0 || r == 1) && -7 < win_diff < 5 ==> verdict_of(season, false, true,
            is_deep_run(PlayoffOutcome::LostInRound(r)), win_diff) == OwnerTone::Neutral,
        verdict_of(season, false, false, is_deep_run(PlayoffOutcome::MissedPlayoffs), win_diff)
            == OwnerTone::Displeased,
        (r == 0 || r == 1) && win_diff >= 5 ==> verdict_of(season, false, true,
            is_deep_run(PlayoffOutcome::LostInRound(r)), win_diff) == OwnerTone::Pleased,
        win_diff <= -7 ==> verdict_of(season, false, true,
            is_deep_run(PlayoffOutcome::LostInRound(r)), win_diff) == OwnerTone::Displeased,
        verdict_of(season, true, true, is_deep_run(PlayoffOutcome::WonChampionship), win_diff) == OwnerTone::Pleased,
{
}

/// The first three seasons are grace years: whatever happened, the owner
/// withholds judgment; after them a title always pleases him.
pub proof fn lemma_grace_years(season: int, champion: bool, made_playoffs: bool, deep: bool, win_diff: int)
    ensures
        season <= 3 ==> verdict_of(season, champion, made_playoffs, deep, win_diff) == OwnerTone::TooEarly,
        season > 3 && champion ==> verdict_of(season, champion, made_playoffs, deep, win_diff) == OwnerTone::Pleased,
{
}

/// A record such as "41-41".
pub open spec fn record_text(wins: int, losses: int) -> Seq<char> {
    decimal(wins as nat) + "-"@ + decimal(losses as nat)
}

fn record_string(wins: u32, losses: u32) -> (s: String)
    ensures
        s@ == record_text(wins as int, losses as int),
{
    let mut s = decimal_string(wins);
    s.append("-");
    let l = decimal_string(losses);
    s.append(l.as_str());
    proof {
        reveal_strlit("-");
    }
    s
}

/// How this season's wins compare with last season's record: more than
/// three wins better is a step up, more than three worse a slide.
pub open spec fn year_over_year_text(wins: int, last_wins: int, last_losses: int) -> Seq<char> {
    let last = record_text(last_wins, last_losses);
    if wins > last_wins + 3 {
        " That's a real step up from last year's "@ + last + "."@
    } else if wins + 3 < last_wins {
        " We slid back from last year's "@ + last + "."@
    } else {
        " Right about where we landed last year ("@ + last + ")."@
    }
}

/// The owner's line comparing the season with the one before.
pub fn year_over_year_note(wins: u32, last_wins: u32, last_losses: u32) -> (s: String)
    ensures
        s@ == year_over_year_text(wins as int, last_wins as int, last_losses as int),
{
    let last = record_string(last_wins, last_losses);
    proof {
        reveal_strlit(" That's a real step up from last year's ");
        reveal_strlit(" We slid back from last year's ");
        reveal_strlit(" Right about where we landed last year (");
        reveal_strlit(".");
        reveal_strlit(").");
    }
    let mut s;
    if wins as u64 > last_wins as u64 + 3 {
        s = String::from_str(" That's a real step up from last year's ");
        s.append(last.as_str());
        s.append(".");
    } else if wins as u64 + 3 < last_wins as u64 {
        s = String::from_str(" We slid back from last year's ");
        s.append(last.as_str());
        s.append(".");
    } else {
        s = String::from_str(" Right about where we landed last year (");
        s.append(last.as_str());
        s.append(").");
    }
    s
}

/// An amount in thousands shown in whole millions: to the nearest million,
/// a half million to the even one.
pub open spec fn millions_shown(k: int) -> int {
    let t = k / 1000;
    let r = k % 1000;
    if r < 500 { t } else if r > 500 { t + 1 } else if t % 2 == 0 { t } else { t + 1 }
}

fn millions_of(k: u64) -> (m: u64)
    ensures
        m == millions_shown(k as int),
{
    let t = k / 1000;
    let r = k % 1000;
    if r < 500 { t } else if r > 500 { t + 1 } else if t % 2 == 0 { t } else { t + 1 }
}

/// What the owner's note needs from the real-valued side of the game: the
/// wins he projected for the roster, how the team's scoring and shooting
/// compared with the league (`leaky_defense`, `cold_offense`,
/// `poor_shooting`), the leading scorer (name and points a night, as
/// shown), the season's profit (thousands), and the state of the fan base.
#[derive(Debug, Clone)]
pub struct OwnerReport {
    pub expected_wins: i32,
    pub leaky_defense: bool,
    pub cold_offense: bool,
    pub poor_shooting: bool,
    pub leader: Option<(String, String)>,
    pub profit: i64,
    pub unmet_demand: bool,
    pub fans_tuning_out: bool,
    pub fans_electric: bool,
}

pub open spec fn too_early_text(season: int) -> Seq<char> {
    "It's only year "@ + decimal(season as nat)
        + ". I'm not going to judge you yet \u{2014} take your time and build me something special."@
}

pub open spec fn champion_text(city: Seq<char>) -> Seq<char> {
    "You brought a championship home to "@ + city
        + "! I knew I hired the right person. Keep it up, my son."@
}

pub open spec fn projection_text(wins: int, losses: int, expected: int) -> Seq<char> {
    "At "@ + record_text(wins, losses) + ", you "@ + expectation_text(wins - expected) + " the "@
        + signed_decimal(expected) + " wins I projected for this roster."@
}

/// The owner's word on the play: the defense, else the offense, else the
/// leading scorer, else nothing.
pub open spec fn play_text(r: OwnerReport) -> Seq<char> {
    if r.leaky_defense {
        " We gave up far too many points on the defensive end."@
    } else if r.cold_offense {
        " The offense went cold too often for my liking."@
    } else {
        match r.leader {
            Some(ld) => " "@ + ld.0@ + " leading us at "@ + ld.1@ + " a night was a bright spot."@,
            None => ""@,
        }
    }
}

/// The owner's word on the money: a loss of more than $25M, or a profit of
/// more than $45M, gets a line.
pub open spec fn money_text(profit: int) -> Seq<char> {
    if profit < -25_000 {
        " On the business side we bled $"@ + decimal(millions_shown(-profit) as nat)
            + "M this year \u{2014} I can't keep covering losses like that."@
    } else if profit > 45_000 {
        " The books look terrific too \u{2014} we cleared $"@ + decimal(millions_shown(profit) as nat) + "M."@
    } else {
        ""@
    }
}

/// The owner's word on the fans: turning fans away, else tuning out, else
/// electric, else nothing.
pub open spec fn fans_text(r: OwnerReport, capacity: int) -> Seq<char> {
    if r.unmet_demand {
        " And we're selling out "@ + decimal(capacity as nat)
            + " every night and still turning fans away \u{2014} it's time we expanded the arena."@
    } else if r.fans_tuning_out {
        " The fans are tuning out; we need to give this city something to believe in."@
    } else if r.fans_electric {
        " The city is electric \u{2014} I've never seen fan interest this high."@
    } else {
        ""@
    }
}

/// An arena of 25 years or more draws a line.
pub open spec fn arena_text(age: int) -> Seq<char> {
    if age >= 25 {
        " One more thing: the building is "@ + decimal(age as nat)
            + " years old and showing it \u{2014} we should look at a renovation."@
    } else {
        ""@
    }
}

/// The sign-off: next season's goal, or a word of encouragement.
pub open spec fn closing_text(goal: Option<Seq<char>>, tone: OwnerTone) -> Seq<char> {
    match goal {
        Some(g) => " Next season, I want you to "@ + g + "."@,
        None => if tone == OwnerTone::Pleased { " Keep it up, my son."@ } else { " Let's keep building on this."@ },
    }
}

/// Is the user's team this season's champion?
pub open spec fn user_champion(l: League, u: crate::types::TeamId) -> bool {
    l.playoffs matches Some(p) && p.champion == Some(u)
}

/// The owner's verdict on the league's season, for the user's team `u`.
pub open spec fn season_verdict(l: League, u: crate::types::TeamId, r: OwnerReport) -> OwnerTone {
    let o = outcome_of(l.playoffs, u);
    verdict_of(l.season as int, user_champion(l, u), o != PlayoffOutcome::MissedPlayoffs, is_deep_run(o),
        l.teams@[u as int].wins - r.expected_wins)
}

/// The full note for a season past the grace years that did not end in a
/// title.
pub open spec fn season_note(l: League, u: crate::types::TeamId, r: OwnerReport) -> Seq<char> {
    let t = l.teams@[u as int];
    let o = outcome_of(l.playoffs, u);
    projection_text(t.wins as int, t.losses as int, r.expected_wins as int)
        + (if l.history@.len() > 0 {
            year_over_year_text(t.wins as int, l.history@.last().user_wins as int, l.history@.last().user_losses as int)
        } else {
            ""@
        })
        + postseason_text(o)
        + play_text(r)
        + money_text(r.profit as int)
        + fans_text(r, t.finances.capacity as int)
        + arena_text(t.finances.stadium_age as int)
        + closing_text(goal_text(o, r.leaky_defense, r.cold_offense, r.poor_shooting),
            tone_of(o != PlayoffOutcome::MissedPlayoffs, is_deep_run(o), t.wins - r.expected_wins))
}

/// The owner's message on the league's season.
pub open spec fn owner_message_of(l: League, r: OwnerReport) -> (OwnerTone, Seq<char>) {
    match l.user_team_id {
        None => (OwnerTone::Neutral, ""@),
        Some(u) => if l.season <= 3 {
            (OwnerTone::TooEarly, too_early_text(l.season as int))
        } else if user_champion(l, u) {
            (OwnerTone::Pleased, champion_text(l.teams@[u as int].location@))
        } else {
            (season_verdict(l, u, r), season_note(l, u, r))
        },
    }
}

fn play_string(r: &OwnerReport) -> (s: String)
    ensures
        s@ == play_text(*r),
{
    proof {
        reveal_strlit(" We gave up far too many points on the defensive end.");
        reveal_strlit(" The offense went cold too often for my liking.");
        reveal_strlit(" ");
        reveal_strlit(" leading us at ");
        reveal_strlit(" a night was a bright spot.");
        reveal_strlit("");
    }
    if r.leaky_defense {
        String::from_str(" We gave up far too many points on the defensive end.")
    } else if r.cold_offense {
        String::from_str(" The offense went cold too often for my liking.")
    } else {
        match &r.leader {
            Some(ld) => {
                let mut s = String::from_str(" ");
                s.append(ld.0.as_str());
                s.append(" leading us at ");
                s.append(ld.1.as_str());
                s.append(" a night was a bright spot.");
                s
            },
            None => String::from_str(""),
        }
    }
}

fn money_string(profit: i64) -> (s: String)
    ensures
        s@ == money_text(profit as int),
{
    proof {
        reveal_strlit(" On the business side we bled $");
        reveal_strlit("M this year \u{2014} I can't keep covering losses like that.");
        reveal_strlit(" The books look terrific too \u{2014} we cleared $");
        reveal_strlit("M.");
        reveal_strlit("");
    }
    if profit < -25_000 {
        let amount = (-(profit as i128)) as u64;
        let mut s = String::from_str(" On the business side we bled $");
        let m = decimal_string_wide(millions_of(amount));
        s.append(m.as_str());
        s.append("M this year \u{2014} I can't keep covering losses like that.");
        s
    } else if profit > 45_000 {
        let mut s = String::from_str(" The books look terrific too \u{2014} we cleared $");
        let m = decimal_string_wide(millions_of(profit as u64));
        s.append(m.as_str());
        s.append("M.");
        s
    } else {
        String::from_str("")
    }
}

fn fans_string(r: &OwnerReport, capacity: u32) -> (s: String)
    ensures
        s@ == fans_text(*r, capacity as int),
{
    proof {
        reveal_strlit(" And we're selling out ");
        reveal_strlit(" every night and still turning fans away \u{2014} it's time we expanded the arena.");
        reveal_strlit(" The fans are tuning out; we need to give this city something to believe in.");
        reveal_strlit(" The city is electric \u{2014} I've never seen fan interest this high.");
        reveal_strlit("");
    }
    if r.unmet_demand {
        let mut s = String::from_str(" And we're selling out ");
        let c = decimal_string(capacity);
        s.append(c.as_str());
        s.append(" every night and still turning fans away \u{2014} it's time we expanded the arena.");
        s
    } else if r.fans_tuning_out {
        String::from_str(" The fans are tuning out; we need to give this city something to believe in.")
    } else if r.fans_electric {
        String::from_str(" The city is electric \u{2014} I've never seen fan interest this high.")
    } else {
        String::from_str("")
    }
}

fn arena_string(age: u32) -> (s: String)
    ensures
        s@ == arena_text(age as int),
{
    proof {
        reveal_strlit(" One more thing: the building is ");
        reveal_strlit(" years old and showing it \u{2014} we should look at a renovation.");
        reveal_strlit("");
    }
    if age >= 25 {
        let mut s = String::from_str(" One more thing: the building is ");
        let a = decimal_string(age);
        s.append(a.as_str());
        s.append(" years old and showing it \u{2014} we should look at a renovation.");
        s
    } else {
        String::from_str("")
    }
}

fn closing_string(goal: Option<&str>, tone: OwnerTone) -> (s: String)
    ensures
        s@ == closing_text(match goal { Some(g) => Some(g@), None => None }, tone),
{
    proof {
        reveal_strlit(" Next season, I want you to ");
        reveal_strlit(".");
        reveal_strlit(" Keep it up, my son.");
        reveal_strlit(" Let's keep building on this.");
    }
    match goal {
        Some(g) => {
            let mut s = String::from_str(" Next season, I want you to ");
            s.append(g);
            s.append(".");
            s
        },
        None => if tone == OwnerTone::Pleased {
            String::from_str(" Keep it up, my son.")
        } else {
            String::from_str(" Let's keep building on this.")
        },
    }
}

impl League {
    /// The owner's after-season message to the GM, from the league's season
    /// and the real-valued readings in `report` (see `owner_message_of`).
    pub fn evaluate_owner(&self, report: &OwnerReport) -> (m: OwnerMessage)
        requires
            self.user_team_id matches Some(u) ==> (u as int) < self.teams@.len()
                && self.teams@[u as int].wins <= i32::MAX
                && i32::MIN <= self.teams@[u as int].wins - report.expected_wins <= i32::MAX,
        ensures
            (m.tone, m.body@) == owner_message_of(*self, *report),
    {
        proof {
            reveal_strlit("");
            reveal_strlit("It's only year ");
            reveal_strlit(". I'm not going to judge you yet \u{2014} take your time and build me something special.");
            reveal_strlit("You brought a championship home to ");
            reveal_strlit("! I knew I hired the right person. Keep it up, my son.");
            reveal_strlit("At ");
            reveal_strlit(", you ");
            reveal_strlit(" the ");
            reveal_strlit(" wins I projected for this roster.");
        }
        let Some(u) = self.user_team_id else {
            return OwnerMessage { tone: OwnerTone::Neutral, body: String::from_str("") };
        };
        let team = &self.teams[u as usize];
        if self.season <= 3 {
            let mut body = String::from_str("It's only year ");
            let y = decimal_string(self.season);
            body.append(y.as_str());
            body.append(". I'm not going to judge you yet \u{2014} take your time and build me something special.");
            return OwnerMessage { tone: OwnerTone::TooEarly, body };
        }
        let champion = match &self.playoffs {
            Some(p) => p.champion == Some(u),
            None => false,
        };
        if champion {
            let mut body = String::from_str("You brought a championship home to ");
            body.append(team.location.as_str());
            body.append("! I knew I hired the right person. Keep it up, my son.");
            return OwnerMessage { tone: OwnerTone::Pleased, body };
        }
        let win_diff: i32 = team.wins as i32 - report.expected_wins;
        let outcome = self.outcome_for(u);
        let made = outcome != PlayoffOutcome::MissedPlayoffs;
        let deep = deep_run(outcome);
        let tone = owner_verdict(self.season, champion, made, deep, win_diff);
        let goal = owner_goal(outcome, report.leaky_defense, report.cold_offense, report.poor_shooting);

        let mut body = String::from_str("At ");
        let rec = record_string(team.wins, team.losses);
        body.append(rec.as_str());
        body.append(", you ");
        body.append(expectation_phrase(win_diff));
        body.append(" the ");
        let ew = signed_string(report.expected_wins);
        body.append(ew.as_str());
        body.append(" wins I projected for this roster.");
        let ghost b0 = body@;
        if self.history.len() > 0 {
            let h = &self.history[self.history.len() - 1];
            let yoy = year_over_year_note(team.wins, h.user_wins, h.user_losses);
            body.append(yoy.as_str());
        }
        let ghost b1 = body@;
        body.append(postseason_note(outcome));
        let play = play_string(report);
        body.append(play.as_str());
        let money = money_string(report.profit);
        body.append(money.as_str());
        let fans = fans_string(report, team.finances.capacity);
        body.append(fans.as_str());
        let arena = arena_string(team.finances.stadium_age);
        body.append(arena.as_str());
        let close = closing_string(goal, tone);
        body.append(close.as_str());
        proof {
            assert(b0 == projection_text(team.wins as int, team.losses as int, report.expected_wins as int));
            assert(body@ =~= season_note(*self, u, *report));
        }
        OwnerMessage { tone, body }
    }
}

} // verus!
