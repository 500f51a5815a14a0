//! Turn-based tactical combat on a square grid: shortest-path search around
//! blocked cells, the turn and phase state machine, and the decisions of the
//! computer-controlled team.

pub mod ai_units;
pub mod battle;
pub mod grid;
pub mod highlight;
pub mod open_set;
pub mod pathfinding;
pub mod player_units;
pub mod route;
pub mod search;
pub mod states;
pub mod turn;
pub mod units;
