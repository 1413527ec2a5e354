//! What a planner proposes: commands for the game loop to carry out, in order.
use vstd::prelude::*;
use crate::hex::HexCoord;

verus! {

/// One proposed command.
#[derive(Debug, Clone, PartialEq, Eq)]
pub enum AiAction {
    /// A standing order to march along a path of adjacent hexes, without the
    /// hex that the battalion stands on.
    MoveUnit { unit_id: usize, path: Vec<HexCoord> },
    /// Close combat with an adjacent enemy battalion.
    Assault { attacker_id: usize, target_id: usize },
    /// Ranged fire on a hex.
    FireSupport { attacker_id: usize, target_hex: HexCoord },
    /// Take or keep the hold stance.
    Hold { unit_id: usize },
    /// Emplace a towed gun.
    Emplace { unit_id: usize },
    /// Limber an emplaced gun.
    Limber { unit_id: usize },
    /// Disengage and fall back to the own deployment zone.
    Retreat { unit_id: usize },
    /// The side is done.
    EndTurn,
}

/// A proposed command as a value.
#[verifier::ext_equal]
pub enum Act {
    MoveUnit { unit_id: usize, path: Seq<HexCoord> },
    Assault { attacker_id: usize, target_id: usize },
    FireSupport { attacker_id: usize, target_hex: HexCoord },
    Hold { unit_id: usize },
    Emplace { unit_id: usize },
    Limber { unit_id: usize },
    Retreat { unit_id: usize },
    EndTurn,
}

impl View for AiAction {
    type V = Act;

    open spec fn view(&self) -> Act {
        match self {
            AiAction::MoveUnit { unit_id, path } => Act::MoveUnit { unit_id: *unit_id, path: path@ },
            AiAction::Assault { attacker_id, target_id } => Act::Assault {
                attacker_id: *attacker_id,
                target_id: *target_id,
            },
            AiAction::FireSupport { attacker_id, target_hex } => Act::FireSupport {
                attacker_id: *attacker_id,
                target_hex: *target_hex,
            },
            AiAction::Hold { unit_id } => Act::Hold { unit_id: *unit_id },
            AiAction::Emplace { unit_id } => Act::Emplace { unit_id: *unit_id },
            AiAction::Limber { unit_id } => Act::Limber { unit_id: *unit_id },
            AiAction::Retreat { unit_id } => Act::Retreat { unit_id: *unit_id },
            AiAction::EndTurn => Act::EndTurn,
        }
    }
}

/// The battalion that a command is for.
pub open spec fn actor(a: Act) -> Option<usize> {
    match a {
        Act::MoveUnit { unit_id, .. } => Some(unit_id),
        Act::Assault { attacker_id, .. } => Some(attacker_id),
        Act::FireSupport { attacker_id, .. } => Some(attacker_id),
        Act::Hold { unit_id } => Some(unit_id),
        Act::Emplace { unit_id } => Some(unit_id),
        Act::Limber { unit_id } => Some(unit_id),
        Act::Retreat { unit_id } => Some(unit_id),
        Act::EndTurn => None,
    }
}

/// The hex that a command books: where its march ends.
pub open spec fn booked(a: Act) -> Option<HexCoord> {
    match a {
        Act::MoveUnit { path, .. } => if path.len() > 0 {
            Some(path.last())
        } else {
            None
        },
        _ => None,
    }
}

/// The commands as values.
pub open spec fn acts(s: Seq<AiAction>) -> Seq<Act> {
    s.map_values(|a: AiAction| a@)
}

impl AiAction {
    /// The same command.
    pub fn copied(&self) -> (a: AiAction)
        ensures
            a@ == self@,
    {
        match self {
            AiAction::MoveUnit { unit_id, path } => {
                let mut copy: Vec<HexCoord> = Vec::new();
                let mut i: usize = 0;
                while i < path.len()
                    invariant
                        i <= path@.len(),
                        copy@ =~= path@.take(i as int),
                    decreases path@.len() - i,
                {
                    copy.push(path[i]);
                    i += 1;
                }
                assert(copy@ =~= path@);
                AiAction::MoveUnit { unit_id: *unit_id, path: copy }
            },
            AiAction::Assault { attacker_id, target_id } => AiAction::Assault {
                attacker_id: *attacker_id,
                target_id: *target_id,
            },
            AiAction::FireSupport { attacker_id, target_hex } => AiAction::FireSupport {
                attacker_id: *attacker_id,
                target_hex: *target_hex,
            },
            AiAction::Hold { unit_id } => AiAction::Hold { unit_id: *unit_id },
            AiAction::Emplace { unit_id } => AiAction::Emplace { unit_id: *unit_id },
            AiAction::Limber { unit_id } => AiAction::Limber { unit_id: *unit_id },
            AiAction::Retreat { unit_id } => AiAction::Retreat { unit_id: *unit_id },
            AiAction::EndTurn => AiAction::EndTurn,
        }
    }

    /// The hex that the command books.
    pub fn booking(&self) -> (h: Option<HexCoord>)
        ensures
            h == booked(self@),
    {
        match self {
            AiAction::MoveUnit { unit_id: _, path } => if path.len() > 0 {
                Some(path[path.len() - 1])
            } else {
                None
            },
            _ => None,
        }
    }
}

} // verus!
