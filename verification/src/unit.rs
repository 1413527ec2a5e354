//! Battalions as the decision logic sees them.
//!
//! A battalion's organisation and strength are non-negative single-precision
//! quantities. They are held by their bit patterns: for such quantities the
//! pattern, read as an integer, orders as the quantity does, and zero is the
//! pattern zero. The logic only ever compares them.
use vstd::prelude::*;
use crate::hex::HexCoord;

verus! {

/// The two sides of a battle.
#[derive(Debug, Clone, Copy, PartialEq, Eq, Hash, Structural)]
pub enum Side {
    Attacker,
    Defender,
}

/// What has become of a battalion.
#[derive(Debug, Clone, Copy, PartialEq, Eq, Hash, Structural)]
pub enum UnitState {
    /// Under command.
    Active,
    /// Broken, on its way off the battle.
    Retreating,
    /// A remnant parked on its own edge.
    Withdrawn,
    /// Broken while fully encircled.
    Surrendered,
    /// Its strength is wiped out.
    Eliminated,
    /// Slipped away out of bounds.
    LeftBattle,
}

/// What kind of battalion it is, as far as the rules tell kinds apart.
#[derive(Debug, Clone, Copy, PartialEq, Eq, Hash, Structural)]
pub struct UnitKind {
    /// A division headquarters.
    pub hq: bool,
    pub armor: bool,
    pub recon: bool,
    /// A support company without a combat role.
    pub support_company: bool,
    /// Motorized or mechanized.
    pub motorized: bool,
    pub indirect_artillery: bool,
    /// A gun that fires precision missions only.
    pub direct_gun: bool,
    pub rocket: bool,
    pub anti_tank: bool,
    pub anti_air: bool,
    /// Anti-tank or anti-air.
    pub gun: bool,
    /// Towed: has to be emplaced before it may fire.
    pub towed: bool,
}

/// One battalion.
#[derive(Debug, Clone, Copy, PartialEq, Eq, Structural)]
pub struct BattalionUnit {
    pub id: usize,
    /// The number of its division; 0 for a battalion of no division.
    pub division: usize,
    pub side: Side,
    pub position: HexCoord,
    pub state: UnitState,
    /// Whether it is combat-effective while it is active.
    pub fit: bool,
    /// Whether it can be attacked while it is on the board.
    pub present: bool,
    pub kind: UnitKind,
    pub attack_range: i64,
    pub min_attack_range: i64,
    /// Organisation, by its bit pattern.
    pub org: u32,
    /// The share of its full organisation, by its bit pattern.
    pub org_ratio: u32,
    /// Strength, by its bit pattern.
    pub strength: u32,
    /// Organisation in whole hundredths.
    pub org_cents: i64,
    /// Strength in whole hundredths.
    pub strength_cents: i64,
    pub acted: bool,
    pub shocked: bool,
    pub is_holding: bool,
    pub is_emplaced: bool,
    pub manual_override: bool,
    /// Still waiting to be deployed.
    pub undeployed: bool,
    pub can_assault: bool,
    /// May carry out an attack order.
    pub can_attack_order: bool,
    /// May carry out a fire mission once it is loaded.
    pub fire_support: bool,
    /// Turns until it is loaded again.
    pub fire_cooldown: i64,
    /// Consecutive full turns that it has ended out of bounds.
    pub oob_turns: u32,
    /// The destination of its standing move order.
    pub move_to: Option<HexCoord>,
}

/// The condition of a battalion: the quantities that damage and rest change,
/// and what they make of its fitness.
#[derive(Debug, Clone, Copy, PartialEq, Eq, Structural)]
pub struct Condition {
    pub org: u32,
    pub org_ratio: u32,
    pub strength: u32,
    pub org_cents: i64,
    pub strength_cents: i64,
    pub fit: bool,
    pub present: bool,
}

/// The position of a battalion that is on no hex of the map.
pub open spec fn offboard_hex() -> HexCoord {
    HexCoord { q: i32::MIN, r: i32::MIN }
}

/// The position of a battalion that is on no hex of the map.
pub fn offboard() -> (h: HexCoord)
    ensures
        h == offboard_hex(),
{
    HexCoord { q: i32::MIN, r: i32::MIN }
}

impl BattalionUnit {
    /// Under command and able to fight: only an active battalion is.
    pub open spec fn effective(self) -> bool {
        self.state == UnitState::Active && self.fit
    }

    /// On the board, in whatever condition.
    pub open spec fn on_board(self) -> bool {
        ||| self.state == UnitState::Active
        ||| self.state == UnitState::Retreating
        ||| self.state == UnitState::Withdrawn
    }

    /// Can be attacked, and occupies its hex: surrendered, eliminated and
    /// departed battalions do not; a withdrawn remnant does.
    pub open spec fn targetable(self) -> bool {
        self.on_board() && self.present
    }

    /// May carry out a fire mission now.
    pub open spec fn fires_support(self) -> bool {
        self.fire_support && self.fire_cooldown <= 0
    }

    /// A towed battalion that is not emplaced.
    pub open spec fn limbered(self) -> bool {
        self.kind.towed && !self.is_emplaced
    }

    /// The battalion in a new condition.
    pub open spec fn in_condition(self, c: Condition) -> BattalionUnit {
        BattalionUnit {
            org: c.org,
            org_ratio: c.org_ratio,
            strength: c.strength,
            org_cents: c.org_cents,
            strength_cents: c.strength_cents,
            fit: c.fit,
            present: c.present,
            ..self
        }
    }

    /// The battalion in a new state.
    pub open spec fn in_state(self, state: UnitState) -> BattalionUnit {
        BattalionUnit { state, ..self }
    }

    /// The battalion on another hex.
    pub open spec fn at_hex(self, position: HexCoord) -> BattalionUnit {
        BattalionUnit { position, ..self }
    }

    pub fn with_condition(self, c: Condition) -> (u: BattalionUnit)
        ensures
            u == self.in_condition(c),
    {
        BattalionUnit {
            org: c.org,
            org_ratio: c.org_ratio,
            strength: c.strength,
            org_cents: c.org_cents,
            strength_cents: c.strength_cents,
            fit: c.fit,
            present: c.present,
            ..self
        }
    }

    pub fn with_state(self, state: UnitState) -> (u: BattalionUnit)
        ensures
            u == self.in_state(state),
    {
        BattalionUnit { state, ..self }
    }

    pub fn with_position(self, position: HexCoord) -> (u: BattalionUnit)
        ensures
            u == self.at_hex(position),
    {
        BattalionUnit { position, ..self }
    }

    /// Its attack spent: it has acted, its march has ended and it has left its
    /// cover.
    pub open spec fn after_attack(self) -> BattalionUnit {
        BattalionUnit { acted: true, move_to: None, is_holding: false, ..self }
    }

    pub fn spent(self) -> (u: BattalionUnit)
        ensures
            u == self.after_attack(),
    {
        BattalionUnit { acted: true, move_to: None, is_holding: false, ..self }
    }

    pub fn can_fire_support(&self) -> (b: bool)
        ensures
            b == self.fires_support(),
    {
        self.fire_support && self.fire_cooldown <= 0
    }

    pub fn is_combat_effective(&self) -> (b: bool)
        ensures
            b == self.effective(),
    {
        self.state == UnitState::Active && self.fit
    }

    pub fn is_on_board(&self) -> (b: bool)
        ensures
            b == self.on_board(),
    {
        self.state == UnitState::Active || self.state == UnitState::Retreating || self.state
            == UnitState::Withdrawn
    }

    pub fn is_targetable(&self) -> (b: bool)
        ensures
            b == self.targetable(),
    {
        self.is_on_board() && self.present
    }
}

} // verus!
