//! Preset team data: 30 real NBA locations + Cincinnati + Seattle = 32 teams.
//!
//! The user picks a location in the team builder. The location is fixed, but
//! the name and colors come pre-filled and can be edited.

use vstd::prelude::*;
use crate::types::{Color, Conference};

verus! {

/// An editable starting point for a team. Location is fixed; name/colors are
/// defaults the user may change.
#[derive(Debug, Clone)]
pub struct TeamPreset {
    pub location: &'static str,
    pub name: &'static str,
    pub abbrev: &'static str,
    pub primary: &'static str,
    pub secondary: &'static str,
    pub conference: Conference,
}

impl TeamPreset {
    pub fn primary_color(&self) -> (c: Color)
        ensures
            c.0@ == self.primary@,
    {
        Color::new(self.primary)
    }

    pub fn secondary_color(&self) -> (c: Color)
        ensures
            c.0@ == self.secondary@,
    {
        Color::new(self.secondary)
    }
}

/// Build one preset.
fn preset(
    location: &'static str,
    name: &'static str,
    abbrev: &'static str,
    primary: &'static str,
    secondary: &'static str,
    conference: Conference,
) -> (p: TeamPreset)
    ensures
        p.location == location,
        p.name == name,
        p.abbrev == abbrev,
        p.primary == primary,
        p.secondary == secondary,
        p.conference == conference,
{
    TeamPreset { location, name, abbrev, primary, secondary, conference }
}

/// A preset as plain values: location, name, abbreviation, primary and
/// secondary colours, conference.
pub open spec fn preset_view(p: TeamPreset) -> (Seq<char>, Seq<char>, Seq<char>, Seq<char>, Seq<char>, Conference) {
    (p.location@, p.name@, p.abbrev@, p.primary@, p.secondary@, p.conference)
}

/// The league's 32 teams: the Eastern Conference's 16, then the Western's.
pub open spec fn preset_table() -> Seq<(Seq<char>, Seq<char>, Seq<char>, Seq<char>, Seq<char>, Conference)> {
    seq![
        ("Atlanta"@, "Hawks"@, "ATL"@, "#E03A3E"@, "#26282A"@, Conference::East),
        ("Boston"@, "Celtics"@, "BOS"@, "#007A33"@, "#BA9653"@, Conference::East),
        ("Brooklyn"@, "Nets"@, "BKN"@, "#000000"@, "#FFFFFF"@, Conference::East),
        ("Charlotte"@, "Hornets"@, "CHA"@, "#1D1160"@, "#00788C"@, Conference::East),
        ("Chicago"@, "Bulls"@, "CHI"@, "#CE1141"@, "#000000"@, Conference::East),
        ("Cincinnati"@, "Royals"@, "CIN"@, "#5B2B82"@, "#F2C75C"@, Conference::East),
        ("Cleveland"@, "Cavaliers"@, "CLE"@, "#860038"@, "#FDBB30"@, Conference::East),
        ("Detroit"@, "Pistons"@, "DET"@, "#C8102E"@, "#1D42BA"@, Conference::East),
        ("Indiana"@, "Pacers"@, "IND"@, "#002D62"@, "#FDBB30"@, Conference::East),
        ("Miami"@, "Heat"@, "MIA"@, "#98002E"@, "#F9A01B"@, Conference::East),
        ("Milwaukee"@, "Bucks"@, "MIL"@, "#00471B"@, "#EEE1C6"@, Conference::East),
        ("New York"@, "Knicks"@, "NYK"@, "#006BB6"@, "#F58426"@, Conference::East),
        ("Orlando"@, "Magic"@, "ORL"@, "#0077C0"@, "#C4CED4"@, Conference::East),
        ("Philadelphia"@, "76ers"@, "PHI"@, "#006BB6"@, "#ED174C"@, Conference::East),
        ("Toronto"@, "Raptors"@, "TOR"@, "#CE1141"@, "#000000"@, Conference::East),
        ("Washington"@, "Wizards"@, "WAS"@, "#002B5C"@, "#E31837"@, Conference::East),
        ("Dallas"@, "Mavericks"@, "DAL"@, "#00538C"@, "#002B5E"@, Conference::West),
        ("Denver"@, "Nuggets"@, "DEN"@, "#0E2240"@, "#FEC524"@, Conference::West),
        ("Golden State"@, "Warriors"@, "GSW"@, "#1D428A"@, "#FFC72C"@, Conference::West),
        ("Houston"@, "Rockets"@, "HOU"@, "#CE1141"@, "#000000"@, Conference::West),
        ("Los Angeles"@, "Clippers"@, "LAC"@, "#C8102E"@, "#1D428A"@, Conference::West),
        ("L.A."@, "Lakers"@, "LAL"@, "#552583"@, "#FDB927"@, Conference::West),
        ("Memphis"@, "Grizzlies"@, "MEM"@, "#5D76A9"@, "#12173F"@, Conference::West),
        ("Minnesota"@, "Timberwolves"@, "MIN"@, "#0C2340"@, "#236192"@, Conference::West),
        ("New Orleans"@, "Pelicans"@, "NOP"@, "#0C2340"@, "#C8102E"@, Conference::West),
        ("Oklahoma City"@, "Thunder"@, "OKC"@, "#007AC1"@, "#EF3B24"@, Conference::West),
        ("Phoenix"@, "Suns"@, "PHX"@, "#1D1160"@, "#E56020"@, Conference::West),
        ("Portland"@, "Trail Blazers"@, "POR"@, "#E03A3E"@, "#000000"@, Conference::West),
        ("Sacramento"@, "Kings"@, "SAC"@, "#5A2D81"@, "#63727A"@, Conference::West),
        ("San Antonio"@, "Spurs"@, "SAS"@, "#C4CED4"@, "#000000"@, Conference::West),
        ("Seattle"@, "SuperSonics"@, "SEA"@, "#00653A"@, "#FFC200"@, Conference::West),
        ("Utah"@, "Jazz"@, "UTA"@, "#002B5C"@, "#F9A01B"@, Conference::West),
    ]
}

/// No two teams share an abbreviation.
#[verifier::rlimit(60)]
pub proof fn lemma_preset_abbrevs_distinct()
    ensures
        forall|i: int, j: int| 0 <= i < j < 32 ==> #[trigger] preset_table()[i].2 != #[trigger] preset_table()[j].2,
{
    reveal_strlit("ATL");
    reveal_strlit("BOS");
    reveal_strlit("BKN");
    reveal_strlit("CHA");
    reveal_strlit("CHI");
    reveal_strlit("CIN");
    reveal_strlit("CLE");
    reveal_strlit("DET");
    reveal_strlit("IND");
    reveal_strlit("MIA");
    reveal_strlit("MIL");
    reveal_strlit("NYK");
    reveal_strlit("ORL");
    reveal_strlit("PHI");
    reveal_strlit("TOR");
    reveal_strlit("WAS");
    reveal_strlit("DAL");
    reveal_strlit("DEN");
    reveal_strlit("GSW");
    reveal_strlit("HOU");
    reveal_strlit("LAC");
    reveal_strlit("LAL");
    reveal_strlit("MEM");
    reveal_strlit("MIN");
    reveal_strlit("NOP");
    reveal_strlit("OKC");
    reveal_strlit("PHX");
    reveal_strlit("POR");
    reveal_strlit("SAC");
    reveal_strlit("SAS");
    reveal_strlit("SEA");
    reveal_strlit("UTA");
    assert forall|i: int, j: int| 0 <= i < j < 32 implies #[trigger] preset_table()[i].2 != #[trigger] preset_table()[j].2 by {
        let a = preset_table()[i].2;
        let b = preset_table()[j].2;
        assert(a.len() == 3 && b.len() == 3);
        assert(a[0] != b[0] || a[1] != b[1] || a[2] != b[2]);
    }
}

/// All 32 presets: the first 16 are the Eastern Conference, the last 16 the
/// Western. Cincinnati (East) and Seattle (West) round the league out to 16
/// teams per conference.
pub fn presets() -> (v: Vec<TeamPreset>)
    ensures
        v.len() == 32,
        v@.map_values(|p: TeamPreset| preset_view(p)) == preset_table(),
        forall|i: int| 0 <= i < 16 ==> v[i].conference == Conference::East,
        forall|i: int| 16 <= i < 32 ==> v[i].conference == Conference::West,
{
    let e = Conference::East;
    let w = Conference::West;
    let mut v: Vec<TeamPreset> = Vec::new();
    // ----- Eastern Conference (16) -----
    v.push(preset("Atlanta", "Hawks", "ATL", "#E03A3E", "#26282A", e));
    v.push(preset("Boston", "Celtics", "BOS", "#007A33", "#BA9653", e));
    v.push(preset("Brooklyn", "Nets", "BKN", "#000000", "#FFFFFF", e));
    v.push(preset("Charlotte", "Hornets", "CHA", "#1D1160", "#00788C", e));
    v.push(preset("Chicago", "Bulls", "CHI", "#CE1141", "#000000", e));
    v.push(preset("Cincinnati", "Royals", "CIN", "#5B2B82", "#F2C75C", e));
    v.push(preset("Cleveland", "Cavaliers", "CLE", "#860038", "#FDBB30", e));
    v.push(preset("Detroit", "Pistons", "DET", "#C8102E", "#1D42BA", e));
    v.push(preset("Indiana", "Pacers", "IND", "#002D62", "#FDBB30", e));
    v.push(preset("Miami", "Heat", "MIA", "#98002E", "#F9A01B", e));
    v.push(preset("Milwaukee", "Bucks", "MIL", "#00471B", "#EEE1C6", e));
    v.push(preset("New York", "Knicks", "NYK", "#006BB6", "#F58426", e));
    v.push(preset("Orlando", "Magic", "ORL", "#0077C0", "#C4CED4", e));
    v.push(preset("Philadelphia", "76ers", "PHI", "#006BB6", "#ED174C", e));
    v.push(preset("Toronto", "Raptors", "TOR", "#CE1141", "#000000", e));
    v.push(preset("Washington", "Wizards", "WAS", "#002B5C", "#E31837", e));
    // ----- Western Conference (16) -----
    v.push(preset("Dallas", "Mavericks", "DAL", "#00538C", "#002B5E", w));
    v.push(preset("Denver", "Nuggets", "DEN", "#0E2240", "#FEC524", w));
    v.push(preset("Golden State", "Warriors", "GSW", "#1D428A", "#FFC72C", w));
    v.push(preset("Houston", "Rockets", "HOU", "#CE1141", "#000000", w));
    v.push(preset("Los Angeles", "Clippers", "LAC", "#C8102E", "#1D428A", w));
    v.push(preset("L.A.", "Lakers", "LAL", "#552583", "#FDB927", w));
    v.push(preset("Memphis", "Grizzlies", "MEM", "#5D76A9", "#12173F", w));
    v.push(preset("Minnesota", "Timberwolves", "MIN", "#0C2340", "#236192", w));
    v.push(preset("New Orleans", "Pelicans", "NOP", "#0C2340", "#C8102E", w));
    v.push(preset("Oklahoma City", "Thunder", "OKC", "#007AC1", "#EF3B24", w));
    v.push(preset("Phoenix", "Suns", "PHX", "#1D1160", "#E56020", w));
    v.push(preset("Portland", "Trail Blazers", "POR", "#E03A3E", "#000000", w));
    v.push(preset("Sacramento", "Kings", "SAC", "#5A2D81", "#63727A", w));
    v.push(preset("San Antonio", "Spurs", "SAS", "#C4CED4", "#000000", w));
    v.push(preset("Seattle", "SuperSonics", "SEA", "#00653A", "#FFC200", w));
    v.push(preset("Utah", "Jazz", "UTA", "#002B5C", "#F9A01B", w));
    assert(v@.map_values(|p: TeamPreset| preset_view(p)) =~= preset_table());
    v
}

} // verus!
