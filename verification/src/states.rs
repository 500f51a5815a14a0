//! The phases that a turn goes through.

use vstd::prelude::*;

verus! {

/// The phase of the turn cycle. The first five phases belong to the player's
/// team, the last five to the computer's team.
#[derive(Clone, Copy, Hash, PartialEq, Eq, Debug, Structural)]
pub enum TurnPhase {
    SelectUnit,
    SelectMove,
    DoMove,
    SelectAttacker,
    SelectTarget,
    AiSpawnWave,
    AISelectUnit,
    AISelectMove,
    AIDoMove,
    AISelectAttacker,
    AISelectTarget,
}

} // verus!
