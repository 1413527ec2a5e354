//! The tactic cards: parsing script tokens onto them and the texts shown on
//! each card.
//!
//! A token names a combat tactic in the game's script. Every token of the
//! script folds onto one of sixteen cards; the two basic rolls and every
//! unknown token fold onto [`CombatTactic::Default`].
use vstd::prelude::*;

verus! {

/// The sixteen tactics that a side can play.
#[derive(Debug, Clone, Copy, PartialEq, Eq, Hash, Structural)]
pub enum CombatTactic {
    Blitz,
    ElasticDefense,
    OverwhelmingFire,
    InfiltrationAssault,
    MassCharge,
    GuerrillaTactics,
    TacticalWithdrawal,
    Encirclement,
    /// The card of the plain attack and defend rolls and of every unknown token. A defender holds and engages the nearest enemy; an attacker is lifted onto the plain advance by the planner.
    Default,
    /// Hold the line, strike an isolated or beaten target, keep the ground taken.
    Counterattack,
    /// Never move, lurk in cover, strike only an enemy that steps adjacent.
    Ambush,
    /// Hold the river line, hit the enemy mid-ford.
    RiverDefense,
    /// Garrison the city, never leave it, fight enemies that enter.
    UrbanDefense,
    /// Keep the enemy in a contact band, stepping back one hex at a time.
    Delay,
    /// Artillery preparation, then the infantry line advances and assaults.
    Assault,
    /// Artillery on the ford, then the infantry forces the crossing.
    RiverAssault,
}

/// A character with the Unicode property White_Space.
pub open spec fn white_space(c: char) -> bool {
    ||| 0x9 <= c as u32 <= 0xd
    ||| c as u32 == 0x20
    ||| c as u32 == 0x85
    ||| c as u32 == 0xa0
    ||| c as u32 == 0x1680
    ||| 0x2000 <= c as u32 <= 0x200a
    ||| c as u32 == 0x2028
    ||| c as u32 == 0x2029
    ||| c as u32 == 0x202f
    ||| c as u32 == 0x205f
    ||| c as u32 == 0x3000
}

/// The text without the white space before it.
pub open spec fn without_leading(s: Seq<char>) -> Seq<char>
    decreases s.len(),
{
    if s.len() > 0 && white_space(s[0]) {
        without_leading(s.drop_first())
    } else {
        s
    }
}

/// The text without the white space behind it.
pub open spec fn without_trailing(s: Seq<char>) -> Seq<char>
    decreases s.len(),
{
    if s.len() > 0 && white_space(s.last()) {
        without_trailing(s.drop_last())
    } else {
        s
    }
}

/// The text without the white space around it.
pub open spec fn trimmed(s: Seq<char>) -> Seq<char> {
    without_trailing(without_leading(s))
}

/// The character with an ASCII capital letter made small.
pub open spec fn lower(c: char) -> char {
    if 'A' <= c <= 'Z' {
        ((c as u32) + 32) as char
    } else {
        c
    }
}

/// The text with its ASCII capital letters made small.
pub open spec fn lowered(s: Seq<char>) -> Seq<char> {
    Seq::new(s.len(), |i: int| lower(s[i]))
}

/// Calls `str::trim`, which takes away leading and trailing characters that
/// have the Unicode property White_Space.
#[verifier::external_body]
fn trim_text(s: &str) -> (t: &str)
    ensures
        t@ == trimmed(s@),
{
    s.trim()
}

/// Calls `str::to_ascii_lowercase`, which maps the ASCII letters `A` to `Z` to
/// `a` to `z` and leaves every other character as it is.
#[verifier::external_body]
fn lower_text(s: &str) -> (t: String)
    ensures
        t@ == lowered(s@),
{
    s.to_ascii_lowercase()
}

/// Whether two texts hold the same characters.
fn same_text(a: &str, b: &str) -> (same: bool)
    ensures
        same == (a@ == b@),
{
    let n = a.unicode_len();
    if n != b.unicode_len() {
        return false;
    }
    let mut i: usize = 0;
    while i < n
        invariant
            i <= n,
            n == a@.len(),
            n == b@.len(),
            forall|j: int| 0 <= j < i ==> a@[j] == b@[j],
        decreases n - i,
    {
        if a.get_char(i) != b.get_char(i) {
            return false;
        }
        i += 1;
    }
    assert(a@ =~= b@);
    true
}

/// The card that a folded script token stands for.
pub open spec fn card_of(t: Seq<char>) -> CombatTactic {
    if t == "blitz"@ || t == "masterful_blitz"@ || t == "breakthrough"@ {
        CombatTactic::Blitz
    } else if t == "elastic_defense"@ {
        CombatTactic::ElasticDefense
    } else if t == "overwhelming_fire"@ {
        CombatTactic::OverwhelmingFire
    } else if t == "infiltration_assault"@ {
        CombatTactic::InfiltrationAssault
    } else if t == "mass_charge"@ || t == "banzai_charge"@ || t == "grand_banzai_charge"@ || t == "human_wave_tactics"@ || t == "infantry_charge"@ || t == "shock"@ || t == "cc_storm"@ {
        CombatTactic::MassCharge
    } else if t == "guerrilla_tactics"@ {
        CombatTactic::GuerrillaTactics
    } else if t == "tactical_withdrawal"@ || t == "tw_defend"@ || t == "tw_evade"@ {
        CombatTactic::TacticalWithdrawal
    } else if t == "encirclement"@ {
        CombatTactic::Encirclement
    } else if t == "counterattack"@ || t == "backhand_blow"@ {
        CombatTactic::Counterattack
    } else if t == "ambush"@ || t == "cc_local_strong_point"@ {
        CombatTactic::Ambush
    } else if t == "delay"@ || t == "masterful_delay"@ {
        CombatTactic::Delay
    } else if t == "assault"@ || t == "planned_attack"@ || t == "relentless_assault"@ || t == "unexpected_thrust"@ || t == "barrage"@ || t == "cc_attack"@ || t == "cc_defend"@ || t == "cc_withdraw"@ || t == "tw_attack"@ || t == "tw_chase"@ || t == "tw_intercept"@ || t == "sf_storm"@ || t == "sf_barrage"@ || t == "sf_armor_supported_assault"@ || t == "sf_mouse_holing"@ {
        CombatTactic::Assault
    } else if t == "seize_bridge"@ || t == "attacker_sb_hold"@ || t == "attacker_sb_skillful_defence"@ || t == "attacker_hb_attack"@ || t == "attacker_hb_rush"@ || t == "attacker_hb_storm"@ {
        CombatTactic::RiverAssault
    } else if t == "hold_bridge"@ || t == "defender_sb_assault"@ || t == "defender_sb_reckless_assault"@ || t == "defender_sb_retake_bridge"@ || t == "defender_hb_hold"@ || t == "defender_hb_skillful_defence"@ {
        CombatTactic::RiverDefense
    } else if t == "urban_defense"@ || t == "sf_defense"@ || t == "sf_fortify"@ || t == "sf_ambush"@ {
        CombatTactic::UrbanDefense
    } else {
        CombatTactic::Default
    }
}

/// The card's own script token.
pub open spec fn token_text(t: CombatTactic) -> Seq<char> {
    match t {
        CombatTactic::Blitz => "blitz"@,
        CombatTactic::ElasticDefense => "elastic_defense"@,
        CombatTactic::OverwhelmingFire => "overwhelming_fire"@,
        CombatTactic::InfiltrationAssault => "infiltration_assault"@,
        CombatTactic::MassCharge => "mass_charge"@,
        CombatTactic::GuerrillaTactics => "guerrilla_tactics"@,
        CombatTactic::TacticalWithdrawal => "tactical_withdrawal"@,
        CombatTactic::Encirclement => "encirclement"@,
        CombatTactic::Default => "default"@,
        CombatTactic::Counterattack => "counterattack"@,
        CombatTactic::Ambush => "ambush"@,
        CombatTactic::RiverDefense => "hold_bridge"@,
        CombatTactic::UrbanDefense => "urban_defense"@,
        CombatTactic::Delay => "delay"@,
        CombatTactic::Assault => "assault"@,
        CombatTactic::RiverAssault => "seize_bridge"@,
    }
}

/// The card's human-readable name, as the card panel shows it.
pub open spec fn name_text(t: CombatTactic) -> Seq<char> {
    match t {
        CombatTactic::Blitz => "Blitz"@,
        CombatTactic::ElasticDefense => "Elastic Defense"@,
        CombatTactic::OverwhelmingFire => "Overwhelming Fire"@,
        CombatTactic::InfiltrationAssault => "Infiltration Assault"@,
        CombatTactic::MassCharge => "Mass Charge"@,
        CombatTactic::GuerrillaTactics => "Guerrilla Tactics"@,
        CombatTactic::TacticalWithdrawal => "Tactical Withdrawal"@,
        CombatTactic::Encirclement => "Encirclement"@,
        CombatTactic::Default => "Default"@,
        CombatTactic::Counterattack => "Counterattack"@,
        CombatTactic::Ambush => "Ambush"@,
        CombatTactic::RiverDefense => "River Defense"@,
        CombatTactic::UrbanDefense => "Urban Defense"@,
        CombatTactic::Delay => "Delay"@,
        CombatTactic::Assault => "Assault"@,
        CombatTactic::RiverAssault => "River Assault"@,
    }
}

/// A one-line summary of how the card plays.
pub open spec fn description_text(t: CombatTactic) -> Seq<char> {
    match t {
        CombatTactic::Blitz => "Deep penetration: armor rushes a narrow front, bypassing strongpoints; motorized follows to widen the breach."@,
        CombatTactic::ElasticDefense => "Delay and preserve: falls back when attacked, counter-attacks only isolated enemy units."@,
        CombatTactic::OverwhelmingFire => "Attrition warfare: all artillery concentrates on the weakest hex while the infantry line holds."@,
        CombatTactic::InfiltrationAssault => "Exploit gaps: recon probes the flanks; infantry concentrates on weakly-held hexes, avoiding strong positions."@,
        CombatTactic::MassCharge => "Full frontal assault: all infantry advances together, at most one hex per turn. High casualty tolerance."@,
        CombatTactic::GuerrillaTactics => "Hit and run: strike, then disengage — never ends the turn adjacent to the enemy."@,
        CombatTactic::TacticalWithdrawal => "Systematic retreat: falls back one hex per turn toward the rear behind a rearguard."@,
        CombatTactic::Encirclement => "Pincer movement: armor swings around both flanks while infantry pins the center."@,
        CombatTactic::Default => "Hold and engage the nearest enemy; damaged units rotate to the rear."@,
        CombatTactic::Counterattack => "Counter-offensive: holds the line, but strikes hard at an isolated or beaten enemy and keeps the ground."@,
        CombatTactic::Ambush => "Ambush: never moves, lurks in cover, strikes only an enemy that steps adjacent."@,
        CombatTactic::RiverDefense => "River line: holds the riverbank at all costs — no retreat, half-forded enemies hit double."@,
        CombatTactic::UrbanDefense => "Street fighting: garrisons the city, never leaves it, fights every enemy that enters."@,
        CombatTactic::Delay => "Mobile delay: keeps the enemy in a 2-3 hex contact band with constant fire and stepwise resistance."@,
        CombatTactic::Assault => "Standard assault: artillery prepares the weakest hex, the infantry line advances in step, assaults on contact."@,
        CombatTactic::RiverAssault => "River crossing: artillery pounds the ford, infantry forces the crossing and holds the far bank."@,
    }
}

/// Which card counters this one, or which one it counters.
pub open spec fn counter_hint_text(t: CombatTactic) -> Seq<char> {
    match t {
        CombatTactic::Blitz => "Countered by Elastic Defense"@,
        CombatTactic::ElasticDefense => "Counters Blitz"@,
        CombatTactic::OverwhelmingFire => "Counters Mass Charge"@,
        CombatTactic::InfiltrationAssault => "No direct counter"@,
        CombatTactic::MassCharge => "Countered by Overwhelming Fire"@,
        CombatTactic::GuerrillaTactics => "No direct counter"@,
        CombatTactic::TacticalWithdrawal => "Counters Encirclement"@,
        CombatTactic::Encirclement => "Countered by Tactical Withdrawal"@,
        CombatTactic::Default => "No counter"@,
        CombatTactic::Counterattack => "Counters Assault"@,
        CombatTactic::Ambush => "Counters Shock"@,
        CombatTactic::RiverDefense => "Counters River Assault"@,
        CombatTactic::UrbanDefense => "No direct counter"@,
        CombatTactic::Delay => "Countered by Shock"@,
        CombatTactic::Assault => "Countered by Counterattack"@,
        CombatTactic::RiverAssault => "Countered by River Defense"@,
    }
}

impl CombatTactic {
    /// Parses a script token: white space around it and the case of its
    /// letters do not count, and an unknown token gives the default card.
    pub fn from_str(s: &str) -> (card: Self)
        ensures
            card == card_of(lowered(trimmed(s@))),
    {
        let folded: String = lower_text(trim_text(s));
        let t: &str = folded.as_str();
        if same_text(t, "blitz") || same_text(t, "masterful_blitz") || same_text(t, "breakthrough") {
            CombatTactic::Blitz
        } else if same_text(t, "elastic_defense") {
            CombatTactic::ElasticDefense
        } else if same_text(t, "overwhelming_fire") {
            CombatTactic::OverwhelmingFire
        } else if same_text(t, "infiltration_assault") {
            CombatTactic::InfiltrationAssault
        } else if same_text(t, "mass_charge") || same_text(t, "banzai_charge") || same_text(t, "grand_banzai_charge") || same_text(t, "human_wave_tactics") || same_text(t, "infantry_charge") || same_text(t, "shock") || same_text(t, "cc_storm") {
            CombatTactic::MassCharge
        } else if same_text(t, "guerrilla_tactics") {
            CombatTactic::GuerrillaTactics
        } else if same_text(t, "tactical_withdrawal") || same_text(t, "tw_defend") || same_text(t, "tw_evade") {
            CombatTactic::TacticalWithdrawal
        } else if same_text(t, "encirclement") {
            CombatTactic::Encirclement
        } else if same_text(t, "counterattack") || same_text(t, "backhand_blow") {
            CombatTactic::Counterattack
        } else if same_text(t, "ambush") || same_text(t, "cc_local_strong_point") {
            CombatTactic::Ambush
        } else if same_text(t, "delay") || same_text(t, "masterful_delay") {
            CombatTactic::Delay
        } else if same_text(t, "assault") || same_text(t, "planned_attack") || same_text(t, "relentless_assault") || same_text(t, "unexpected_thrust") || same_text(t, "barrage") || same_text(t, "cc_attack") || same_text(t, "cc_defend") || same_text(t, "cc_withdraw") || same_text(t, "tw_attack") || same_text(t, "tw_chase") || same_text(t, "tw_intercept") || same_text(t, "sf_storm") || same_text(t, "sf_barrage") || same_text(t, "sf_armor_supported_assault") || same_text(t, "sf_mouse_holing") {
            CombatTactic::Assault
        } else if same_text(t, "seize_bridge") || same_text(t, "attacker_sb_hold") || same_text(t, "attacker_sb_skillful_defence") || same_text(t, "attacker_hb_attack") || same_text(t, "attacker_hb_rush") || same_text(t, "attacker_hb_storm") {
            CombatTactic::RiverAssault
        } else if same_text(t, "hold_bridge") || same_text(t, "defender_sb_assault") || same_text(t, "defender_sb_reckless_assault") || same_text(t, "defender_sb_retake_bridge") || same_text(t, "defender_hb_hold") || same_text(t, "defender_hb_skillful_defence") {
            CombatTactic::RiverDefense
        } else if same_text(t, "urban_defense") || same_text(t, "sf_defense") || same_text(t, "sf_fortify") || same_text(t, "sf_ambush") {
            CombatTactic::UrbanDefense
        } else {
            CombatTactic::Default
        }
    }

    /// The card's own script token.
    pub fn token(self) -> (text: &'static str)
        ensures
            text@ == token_text(self),
    {
        match self {
            CombatTactic::Blitz => "blitz",
            CombatTactic::ElasticDefense => "elastic_defense",
            CombatTactic::OverwhelmingFire => "overwhelming_fire",
            CombatTactic::InfiltrationAssault => "infiltration_assault",
            CombatTactic::MassCharge => "mass_charge",
            CombatTactic::GuerrillaTactics => "guerrilla_tactics",
            CombatTactic::TacticalWithdrawal => "tactical_withdrawal",
            CombatTactic::Encirclement => "encirclement",
            CombatTactic::Default => "default",
            CombatTactic::Counterattack => "counterattack",
            CombatTactic::Ambush => "ambush",
            CombatTactic::RiverDefense => "hold_bridge",
            CombatTactic::UrbanDefense => "urban_defense",
            CombatTactic::Delay => "delay",
            CombatTactic::Assault => "assault",
            CombatTactic::RiverAssault => "seize_bridge",
        }
    }

    /// The card's human-readable name, as the card panel shows it.
    pub fn name(self) -> (text: &'static str)
        ensures
            text@ == name_text(self),
    {
        match self {
            CombatTactic::Blitz => "Blitz",
            CombatTactic::ElasticDefense => "Elastic Defense",
            CombatTactic::OverwhelmingFire => "Overwhelming Fire",
            CombatTactic::InfiltrationAssault => "Infiltration Assault",
            CombatTactic::MassCharge => "Mass Charge",
            CombatTactic::GuerrillaTactics => "Guerrilla Tactics",
            CombatTactic::TacticalWithdrawal => "Tactical Withdrawal",
            CombatTactic::Encirclement => "Encirclement",
            CombatTactic::Default => "Default",
            CombatTactic::Counterattack => "Counterattack",
            CombatTactic::Ambush => "Ambush",
            CombatTactic::RiverDefense => "River Defense",
            CombatTactic::UrbanDefense => "Urban Defense",
            CombatTactic::Delay => "Delay",
            CombatTactic::Assault => "Assault",
            CombatTactic::RiverAssault => "River Assault",
        }
    }

    /// A one-line summary of how the card plays.
    pub fn description(self) -> (text: &'static str)
        ensures
            text@ == description_text(self),
    {
        match self {
            CombatTactic::Blitz => "Deep penetration: armor rushes a narrow front, bypassing strongpoints; motorized follows to widen the breach.",
            CombatTactic::ElasticDefense => "Delay and preserve: falls back when attacked, counter-attacks only isolated enemy units.",
            CombatTactic::OverwhelmingFire => "Attrition warfare: all artillery concentrates on the weakest hex while the infantry line holds.",
            CombatTactic::InfiltrationAssault => "Exploit gaps: recon probes the flanks; infantry concentrates on weakly-held hexes, avoiding strong positions.",
            CombatTactic::MassCharge => "Full frontal assault: all infantry advances together, at most one hex per turn. High casualty tolerance.",
            CombatTactic::GuerrillaTactics => "Hit and run: strike, then disengage — never ends the turn adjacent to the enemy.",
            CombatTactic::TacticalWithdrawal => "Systematic retreat: falls back one hex per turn toward the rear behind a rearguard.",
            CombatTactic::Encirclement => "Pincer movement: armor swings around both flanks while infantry pins the center.",
            CombatTactic::Default => "Hold and engage the nearest enemy; damaged units rotate to the rear.",
            CombatTactic::Counterattack => "Counter-offensive: holds the line, but strikes hard at an isolated or beaten enemy and keeps the ground.",
            CombatTactic::Ambush => "Ambush: never moves, lurks in cover, strikes only an enemy that steps adjacent.",
            CombatTactic::RiverDefense => "River line: holds the riverbank at all costs — no retreat, half-forded enemies hit double.",
            CombatTactic::UrbanDefense => "Street fighting: garrisons the city, never leaves it, fights every enemy that enters.",
            CombatTactic::Delay => "Mobile delay: keeps the enemy in a 2-3 hex contact band with constant fire and stepwise resistance.",
            CombatTactic::Assault => "Standard assault: artillery prepares the weakest hex, the infantry line advances in step, assaults on contact.",
            CombatTactic::RiverAssault => "River crossing: artillery pounds the ford, infantry forces the crossing and holds the far bank.",
        }
    }

    /// Which card counters this one, or which one it counters.
    pub fn counter_hint(self) -> (text: &'static str)
        ensures
            text@ == counter_hint_text(self),
    {
        match self {
            CombatTactic::Blitz => "Countered by Elastic Defense",
            CombatTactic::ElasticDefense => "Counters Blitz",
            CombatTactic::OverwhelmingFire => "Counters Mass Charge",
            CombatTactic::InfiltrationAssault => "No direct counter",
            CombatTactic::MassCharge => "Countered by Overwhelming Fire",
            CombatTactic::GuerrillaTactics => "No direct counter",
            CombatTactic::TacticalWithdrawal => "Counters Encirclement",
            CombatTactic::Encirclement => "Countered by Tactical Withdrawal",
            CombatTactic::Default => "No counter",
            CombatTactic::Counterattack => "Counters Assault",
            CombatTactic::Ambush => "Counters Shock",
            CombatTactic::RiverDefense => "Counters River Assault",
            CombatTactic::UrbanDefense => "No direct counter",
            CombatTactic::Delay => "Countered by Shock",
            CombatTactic::Assault => "Countered by Counterattack",
            CombatTactic::RiverAssault => "Countered by River Defense",
        }
    }
}

impl std::str::FromStr for CombatTactic {
    type Err = std::convert::Infallible;

    /// The card of a token, as the card's own `from_str` gives it; parsing never
    /// fails.
    fn from_str(s: &str) -> Result<CombatTactic, std::convert::Infallible> {
        Ok(CombatTactic::from_str(s))
    }
}

/// A text with no white space at either end, and no ASCII capital letter, is
/// its own folded form.
proof fn lemma_folded(s: Seq<char>)
    requires
        s.len() > 0,
        forall|i: int| 0 <= i < s.len() ==> !white_space(#[trigger] s[i]) && !('A' <= s[i] <= 'Z'),
    ensures
        lowered(trimmed(s)) == s,
{
    assert(!white_space(s[0]));
    assert(!white_space(s.last()));
    assert(lowered(s) =~= s);
}

/// Parsing a card's own token gives that card back.
pub proof fn law_token_parses_back(t: CombatTactic)
    ensures
        card_of(lowered(trimmed(token_text(t)))) == t,
{
    reveal_strlit("blitz");
    reveal_strlit("masterful_blitz");
    reveal_strlit("breakthrough");
    reveal_strlit("elastic_defense");
    reveal_strlit("overwhelming_fire");
    reveal_strlit("infiltration_assault");
    reveal_strlit("mass_charge");
    reveal_strlit("banzai_charge");
    reveal_strlit("grand_banzai_charge");
    reveal_strlit("human_wave_tactics");
    reveal_strlit("infantry_charge");
    reveal_strlit("shock");
    reveal_strlit("cc_storm");
    reveal_strlit("guerrilla_tactics");
    reveal_strlit("tactical_withdrawal");
    reveal_strlit("tw_defend");
    reveal_strlit("tw_evade");
    reveal_strlit("encirclement");
    reveal_strlit("counterattack");
    reveal_strlit("backhand_blow");
    reveal_strlit("ambush");
    reveal_strlit("cc_local_strong_point");
    reveal_strlit("delay");
    reveal_strlit("masterful_delay");
    reveal_strlit("assault");
    reveal_strlit("planned_attack");
    reveal_strlit("relentless_assault");
    reveal_strlit("unexpected_thrust");
    reveal_strlit("barrage");
    reveal_strlit("cc_attack");
    reveal_strlit("cc_defend");
    reveal_strlit("cc_withdraw");
    reveal_strlit("tw_attack");
    reveal_strlit("tw_chase");
    reveal_strlit("tw_intercept");
    reveal_strlit("sf_storm");
    reveal_strlit("sf_barrage");
    reveal_strlit("sf_armor_supported_assault");
    reveal_strlit("sf_mouse_holing");
    reveal_strlit("seize_bridge");
    reveal_strlit("attacker_sb_hold");
    reveal_strlit("attacker_sb_skillful_defence");
    reveal_strlit("attacker_hb_attack");
    reveal_strlit("attacker_hb_rush");
    reveal_strlit("attacker_hb_storm");
    reveal_strlit("hold_bridge");
    reveal_strlit("defender_sb_assault");
    reveal_strlit("defender_sb_reckless_assault");
    reveal_strlit("defender_sb_retake_bridge");
    reveal_strlit("defender_hb_hold");
    reveal_strlit("defender_hb_skillful_defence");
    reveal_strlit("urban_defense");
    reveal_strlit("sf_defense");
    reveal_strlit("sf_fortify");
    reveal_strlit("sf_ambush");
    reveal_strlit("default");
    lemma_folded(token_text(t));
}

/// Two texts that differ only in the case of ASCII letters.
pub open spec fn same_but_for_case(s: Seq<char>, t: Seq<char>) -> bool {
    s.len() == t.len() && forall|i: int| 0 <= i < s.len() ==> lower(#[trigger] s[i]) == lower(t[i])
}

proof fn lemma_case_keeps_white_space(c: char, d: char)
    requires
        lower(c) == lower(d),
    ensures
        white_space(c) == white_space(d),
{
}

proof fn lemma_leading_alike(s: Seq<char>, t: Seq<char>)
    requires
        same_but_for_case(s, t),
    ensures
        same_but_for_case(without_leading(s), without_leading(t)),
    decreases s.len(),
{
    if s.len() > 0 {
        lemma_case_keeps_white_space(s[0], t[0]);
        if white_space(s[0]) {
            let a = s.drop_first();
            let c = t.drop_first();
            assert forall|i: int| 0 <= i < a.len() implies lower(#[trigger] a[i]) == lower(c[i]) by {
                assert(a[i] == s[i + 1] && c[i] == t[i + 1]);
            }
            lemma_leading_alike(a, c);
        }
    }
}

proof fn lemma_trailing_alike(s: Seq<char>, t: Seq<char>)
    requires
        same_but_for_case(s, t),
    ensures
        same_but_for_case(without_trailing(s), without_trailing(t)),
    decreases s.len(),
{
    if s.len() > 0 {
        let n = s.len() - 1;
        lemma_case_keeps_white_space(s[n], t[n]);
        if white_space(s[n]) {
            let a = s.drop_last();
            let c = t.drop_last();
            assert forall|i: int| 0 <= i < a.len() implies lower(#[trigger] a[i]) == lower(c[i]) by {
                assert(a[i] == s[i] && c[i] == t[i]);
            }
            lemma_trailing_alike(a, c);
        }
    }
}

/// Neither case nor white space around a token matters: tokens that differ in nothing else
/// stand for the same card.
pub proof fn law_case_and_space_do_not_matter(s: Seq<char>, t: Seq<char>, c: char)
    ensures
        same_but_for_case(s, t) ==> card_of(lowered(trimmed(s))) == card_of(lowered(trimmed(t))),
        c == ' ' || c == '\t' || c == '\n' ==> card_of(lowered(trimmed(s.push(c)))) == card_of(lowered(trimmed(s))),
        c == ' ' || c == '\t' || c == '\n' ==> card_of(lowered(trimmed(seq![c] + s))) == card_of(lowered(trimmed(s))),
{
    if same_but_for_case(s, t) {
        lemma_leading_alike(s, t);
        lemma_trailing_alike(without_leading(s), without_leading(t));
        assert(lowered(trimmed(s)) =~= lowered(trimmed(t)));
    }
    if white_space(c) {
        assert((seq![c] + s).drop_first() =~= s);
        lemma_push_space(s, c);
    }
}

proof fn lemma_push_space(s: Seq<char>, c: char)
    requires
        white_space(c),
    ensures
        trimmed(s.push(c)) == trimmed(s),
    decreases s.len(),
{
    if s.len() > 0 && white_space(s[0]) {
        assert(s.push(c).drop_first() =~= s.drop_first().push(c));
        lemma_push_space(s.drop_first(), c);
    } else if s.len() > 0 {
        assert(s.push(c)[0] == s[0]);
        assert(without_leading(s.push(c)) == s.push(c));
        assert(s.push(c).drop_last() =~= s);
    } else {
        assert(s.push(c).drop_first() =~= s);
        assert(s.push(c)[0] == c);
    }
}

} // verus!
