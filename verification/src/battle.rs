//! The state of a battle, held in one place, and what combat does to it.

use crate::grid::{
    blocked_by, set_blocked_tiles, BlockedTiles, Cell, GridPosition, SelectedPath, SelectedTile,
};
use crate::pathfinding::{a_star_path, calculate_a_star_path};
use crate::states::TurnPhase;
use crate::units::{
    all_acted, live, record_of, rest_all, ActiveUnit, Health, SelectedUnit, Team, Unit, UnitId,
    UnitRecord, UnitSlot, Units,
};
use vstd::prelude::*;

verus! {

/// A battle: the phase of the turn cycle, what is chosen, the units, and
/// the grid they stand on.
pub struct Battle {
    /// The phase that the next tick acts in.
    pub phase: TurnPhase,
    /// The unit that acts in this phase.
    pub active: ActiveUnit,
    /// The unit that was last pointed at.
    pub selected: SelectedUnit,
    /// The destination of the move that is chosen.
    pub selected_tile: SelectedTile,
    /// The steps of that move that are still to be made.
    pub selected_path: SelectedPath,
    /// How far the unit that moves has come on its way into the next cell
    /// of its path, in thousandths of the way.
    pub travelled: u32,
    /// All units on the grid.
    pub units: Units,
    /// The cells that nothing can ever stand on.
    pub obstacles: Vec<GridPosition>,
    /// The cells that are blocked at present.
    pub blocked: BlockedTiles,
}

/// A battle as a mathematical value.
#[verifier::ext_equal]
pub struct BattleView {
    pub phase: TurnPhase,
    pub active: Option<UnitId>,
    pub selected: Option<UnitId>,
    pub selected_grid: Cell,
    pub selected_tile: Cell,
    pub path: Seq<Cell>,
    pub travelled: int,
    pub units: Seq<UnitSlot>,
    pub obstacles: Seq<GridPosition>,
    pub blocked: Map<Cell, bool>,
    pub side: int,
}

impl View for Battle {
    type V = BattleView;

    open spec fn view(&self) -> BattleView {
        BattleView {
            phase: self.phase,
            active: self.active.value,
            selected: self.selected.value,
            selected_grid: self.selected.grid,
            selected_tile: (self.selected_tile.x, self.selected_tile.y),
            path: self.selected_path.tiles@,
            travelled: self.travelled as int,
            units: self.units@,
            obstacles: self.obstacles@,
            blocked: self.blocked@,
            side: self.blocked.side(),
        }
    }
}

/// The way from one cell into the next, in the units in which a move is
/// measured.
pub const FULL_STEP: u32 = 1000;

/// The team that acts in a phase.
pub open spec fn team_of(phase: TurnPhase) -> Team {
    match phase {
        TurnPhase::SelectUnit
        | TurnPhase::SelectMove
        | TurnPhase::DoMove
        | TurnPhase::SelectAttacker
        | TurnPhase::SelectTarget => Team::PLAYER,
        _ => Team::AI,
    }
}

/// The battle with its blocked cells worked out anew from its units and
/// obstacles.
pub open spec fn refreshed(v: BattleView) -> BattleView {
    BattleView { blocked: blocked_by(v.units, v.obstacles, v.side), ..v }
}

/// The health that is left of `value` after `dmg` damage. It does not
/// leave the range of `i32`.
pub open spec fn health_left(value: i32, dmg: i32) -> i32 {
    if value - dmg < i32::MIN {
        i32::MIN
    } else if value - dmg > i32::MAX {
        i32::MAX
    } else {
        (value - dmg) as i32
    }
}

/// The unit with `value` as its health.
pub open spec fn with_health(r: UnitRecord, value: i32) -> UnitRecord {
    UnitRecord {
        unit: r.unit,
        grid: r.grid,
        movement: r.movement,
        health: Health { max: r.health.max, value },
        attack: r.attack,
    }
}

/// The unit with its flag set: it has acted.
pub open spec fn having_acted(r: UnitRecord) -> UnitRecord {
    UnitRecord {
        unit: Unit { has_acted: true, team: r.unit.team },
        grid: r.grid,
        movement: r.movement,
        health: r.health,
        attack: r.attack,
    }
}

/// The unit moved to the cell `c`.
pub open spec fn moved_to(r: UnitRecord, c: Cell) -> UnitRecord {
    UnitRecord {
        unit: r.unit,
        grid: GridPosition { x: c.0, y: c.1 },
        movement: r.movement,
        health: r.health,
        attack: r.attack,
    }
}

/// The slots with `r` in the place of the unit `id`.
pub open spec fn with_record(units: Seq<UnitSlot>, id: UnitId, r: UnitRecord) -> Seq<UnitSlot> {
    units.update(id.index as int, UnitSlot { generation: id.generation, record: Some(r) })
}

/// The slots without the unit `id`.
pub open spec fn without(units: Seq<UnitSlot>, id: UnitId) -> Seq<UnitSlot> {
    units.update(id.index as int, UnitSlot { generation: id.generation, record: None })
}

/// The battle after `attacker` has hit `target`: the target has lost as
/// much health as the attacker deals damage; with no health left it is gone
/// and the cells that are blocked are worked out anew. Where one of the two
/// is gone already, nothing happens.
pub open spec fn damaged(v: BattleView, attacker: UnitId, target: UnitId) -> BattleView {
    if live(v.units, attacker) && live(v.units, target) {
        let hit = record_of(v.units, target);
        let left = health_left(hit.health.value, record_of(v.units, attacker).attack.dmg);
        if left <= 0 {
            refreshed(BattleView { units: without(v.units, target), ..v })
        } else {
            BattleView { units: with_record(v.units, target, with_health(hit, left)), ..v }
        }
    } else {
        v
    }
}

/// A battle on a board of `rows_cols` rows and as many columns, before
/// anything is on it: the player is to select a unit.
pub fn setup(rows_cols: u16) -> (battle: Battle)
    ensures
        battle@ == (BattleView {
            phase: TurnPhase::SelectUnit,
            active: None,
            selected: None,
            selected_grid: (0, 0),
            selected_tile: (0, 0),
            path: Seq::empty(),
            travelled: 0,
            units: Seq::empty(),
            obstacles: Seq::empty(),
            blocked: blocked_by(Seq::empty(), Seq::empty(), rows_cols as int),
            side: rows_cols as int,
        }),
{
    let mut battle = Battle {
        phase: TurnPhase::SelectUnit,
        active: ActiveUnit { value: None },
        selected: SelectedUnit { value: None, grid: (0, 0) },
        selected_tile: SelectedTile { x: 0, y: 0 },
        selected_path: SelectedPath { tiles: Vec::new() },
        travelled: 0,
        units: Units::new(),
        obstacles: Vec::new(),
        blocked: BlockedTiles::new(rows_cols),
    };
    set_blocked_tiles(&battle.units, &battle.obstacles, &mut battle.blocked);
    battle
}

/// The health that is left of `value` after `dmg` damage.
pub fn reduce_health(value: i32, dmg: i32) -> (left: i32)
    ensures
        left == health_left(value, dmg),
{
    let left: i64 = value as i64 - dmg as i64;
    if left < i32::MIN as i64 {
        i32::MIN
    } else if left > i32::MAX as i64 {
        i32::MAX
    } else {
        left as i32
    }
}

/// `attacker` hits `target`: the target loses as much health as the
/// attacker deals damage. With no health left the target leaves the
/// registry, and its cell is free again.
pub fn apply_damage(battle: &mut Battle, attacker: UnitId, target: UnitId)
    ensures
        final(battle)@ == damaged(old(battle)@, attacker, target),
{
    if let Some(a) = battle.units.get(attacker) {
        if let Some(hit) = battle.units.get(target) {
            let left = reduce_health(hit.health.value, a.attack.dmg);
            if left <= 0 {
                battle.units.remove(target);
                set_blocked_tiles(&battle.units, &battle.obstacles, &mut battle.blocked);
            } else {
                let mut hurt = hit;
                hurt.health.value = left;
                battle.units.set(target, hurt);
            }
        }
    }
}

/// The battle as it enters `phase`. On the way into a phase in which a
/// unit is selected to move, no unit is active any more.
pub open spec fn entered(v: BattleView, phase: TurnPhase) -> BattleView {
    BattleView {
        phase,
        active: if phase == TurnPhase::SelectUnit || phase == TurnPhase::AISelectUnit {
            None
        } else {
            v.active
        },
        ..v
    }
}

/// The battle after the end of a part of the team's turn was looked for:
/// once every unit of the team has acted, all their flags are taken back
/// and the battle enters `next`. Until then nothing changes.
pub open spec fn closed_part(v: BattleView, team: Team, next: TurnPhase) -> BattleView {
    if all_acted(v.units, team) {
        entered(BattleView { units: rest_all(v.units, team), ..v }, next)
    } else {
        v
    }
}

/// The active unit, where it is there and of the team.
pub open spec fn acting(v: BattleView, team: Team) -> Option<UnitId> {
    match v.active {
        Some(id) if live(v.units, id) && record_of(v.units, id).unit.team == team => Some(id),
        _ => None,
    }
}

/// The battle with the path of the active unit to the selected tile worked
/// out, none of it gone yet; where there is no such path, with no steps to
/// make. Without an active unit nothing changes.
pub open spec fn routed(v: BattleView) -> BattleView {
    match v.active {
        Some(id) if live(v.units, id) => BattleView {
            travelled: 0,
            path: match a_star_path(
                v.blocked,
                v.side,
                record_of(v.units, id).grid.cell(),
                v.selected_tile,
            ) {
                Some(path) => path,
                None => Seq::empty(),
            },
            ..v
        },
        _ => v,
    }
}

/// The battle one tick further into the move of the team's active unit, in
/// the phase `doing`. With steps left on its path, the unit comes `advance`
/// thousandths of a step nearer to the next cell; as soon as it has come a
/// full step, it stands on that cell, and what it came further is lost: no
/// tick takes a unit further than one cell. With no step left the unit has
/// acted, and the battle enters `back_to`. Without such a unit nothing
/// happens.
pub open spec fn stepped(
    v: BattleView,
    team: Team,
    doing: TurnPhase,
    back_to: TurnPhase,
    advance: u32,
) -> BattleView {
    if v.phase != doing {
        v
    } else {
        match acting(v, team) {
            Some(id) => {
                let r = record_of(v.units, id);
                if v.path.len() == 0 {
                    entered(
                        BattleView {
                            units: with_record(v.units, id, having_acted(r)),
                            travelled: 0,
                            ..v
                        },
                        back_to,
                    )
                } else if v.travelled + advance >= FULL_STEP {
                    BattleView {
                        units: with_record(v.units, id, moved_to(r, v.path.last())),
                        path: v.path.drop_last(),
                        travelled: 0,
                        ..v
                    }
                } else {
                    BattleView { travelled: v.travelled + advance, ..v }
                }
            },
            None => v,
        }
    }
}

/// The battle after the team's active unit has given up its action: it
/// has acted, and the battle goes to the phase `back_to` with no unit
/// active. Without such a unit nothing changes.
pub open spec fn waited(v: BattleView, team: Team, back_to: TurnPhase) -> BattleView {
    match acting(v, team) {
        Some(id) => BattleView {
            units: with_record(v.units, id, having_acted(record_of(v.units, id))),
            active: None,
            phase: back_to,
            ..v
        },
        None => v,
    }
}

/// The battle after the team has given up what is left of a part of its
/// turn: the flags of its units are taken back, and the battle enters
/// `next`.
pub open spec fn skipped(v: BattleView, team: Team, next: TurnPhase) -> BattleView {
    entered(BattleView { units: rest_all(v.units, team), ..v }, next)
}

/// Forgets which unit was active.
pub fn clear_active_unit(battle: &mut Battle)
    ensures
        final(battle)@ == (BattleView { active: None, ..old(battle)@ }),
{
    battle.active.value = None;
}

/// Enters `phase`.
pub fn enter(battle: &mut Battle, phase: TurnPhase)
    ensures
        final(battle)@ == entered(old(battle)@, phase),
{
    battle.phase = phase;
    match phase {
        TurnPhase::SelectUnit | TurnPhase::AISelectUnit => {
            clear_active_unit(battle);
        },
        _ => {},
    }
}

/// Looks for the end of a part of the team's turn: it has come once every
/// unit of the team has acted.
pub fn close_part(battle: &mut Battle, team: Team, next: TurnPhase) -> (open: bool)
    ensures
        open == all_acted(old(battle)@.units, team),
        final(battle)@ == closed_part(old(battle)@, team, next),
{
    if battle.units.all_have_acted(team) {
        battle.units.rest(team);
        enter(battle, next);
        true
    } else {
        false
    }
}

/// The team gives up what is left of a part of its turn.
pub fn skip(battle: &mut Battle, team: Team, next: TurnPhase)
    ensures
        final(battle)@ == skipped(old(battle)@, team, next),
{
    battle.units.rest(team);
    enter(battle, next);
}

/// The active unit and its handle, where it is there and of the team.
pub fn acting_unit(battle: &Battle, team: Team) -> (found: Option<(UnitId, UnitRecord)>)
    ensures
        match found {
            Some((id, r)) => acting(battle@, team) == Some(id) && r == record_of(battle@.units, id),
            None => acting(battle@, team) is None,
        },
{
    match battle.active.value {
        Some(id) => match battle.units.get(id) {
            Some(r) => match (r.unit.team, team) {
                (Team::PLAYER, Team::PLAYER) | (Team::AI, Team::AI) => Some((id, r)),
                _ => None,
            },
            None => None,
        },
        None => None,
    }
}

/// Works out the steps of the move that is chosen: the path of the active
/// unit to the selected tile, none of it gone yet. Without an active unit
/// nothing changes.
pub fn a_star_initializer(battle: &mut Battle)
    ensures
        final(battle)@ == routed(old(battle)@),
{
    if let Some(id) = battle.active.value {
        if let Some(r) = battle.units.get(id) {
            let found = calculate_a_star_path(
                (r.grid.x, r.grid.y),
                (battle.selected_tile.x, battle.selected_tile.y),
                &battle.blocked,
            );
            battle.selected_path.tiles = match found {
                Some(path) => path,
                None => Vec::new(),
            };
            battle.travelled = 0;
        }
    }
}

/// One tick of the move of the team's active unit, which comes `advance`
/// thousandths of a step further. Without such a unit nothing happens.
pub fn step_active_unit(
    battle: &mut Battle,
    team: Team,
    doing: TurnPhase,
    back_to: TurnPhase,
    advance: u32,
)
    ensures
        final(battle)@ == stepped(old(battle)@, team, doing, back_to, advance),
{
    if battle.phase != doing {
        return ;
    }
    if let Some((id, r)) = acting_unit(battle, team) {
        if battle.selected_path.tiles.len() == 0 {
            let mut done = r;
            done.unit.has_acted = true;
            battle.units.set(id, done);
            battle.travelled = 0;
            enter(battle, back_to);
        } else if battle.travelled as u64 + advance as u64 >= FULL_STEP as u64 {
            if let Some(next) = battle.selected_path.tiles.pop() {
                let mut moved = r;
                moved.grid = GridPosition { x: next.0, y: next.1 };
                battle.units.set(id, moved);
            }
            battle.travelled = 0;
        } else {
            battle.travelled = battle.travelled + advance;
        }
    }
}

/// The team's active unit gives up its action.
pub fn wait(battle: &mut Battle, team: Team, back_to: TurnPhase)
    ensures
        final(battle)@ == waited(old(battle)@, team, back_to),
{
    if let Some((id, r)) = acting_unit(battle, team) {
        let mut done = r;
        done.unit.has_acted = true;
        battle.units.set(id, done);
        battle.active.value = None;
        battle.phase = back_to;
    }
}

} // verus!
