//! The player's part of the turn: what the player's choices do to the
//! battle.

use crate::battle::{
    a_star_initializer, acting, acting_unit, apply_damage, close_part, closed_part, damaged,
    having_acted, skip, skipped, step_active_unit, stepped, wait, waited, with_record, Battle,
    BattleView,
};
use crate::grid::{starting_cell, Cell, GridPosition, SelectedTile};
use crate::pathfinding::{a_star_path, calculate_a_star_path};
use crate::route::chebyshev;
use crate::states::TurnPhase;
use crate::units::{
    apart, joined, lemma_joined, live, new_handle, record_of, unit_on, Attack, Health, Movement,
    Team, Unit, UnitId, UnitRecord, Units,
};
use vstd::prelude::*;

verus! {

/// The keys that the battle listens to.
#[derive(Clone, Copy, Debug, PartialEq, Eq, Structural)]
pub enum Key {
    /// Takes back the choice of a unit.
    Escape,
    /// Gives up an action, or what is left of a part of the turn.
    Space,
}

/// The distance between two cells for an attack, which reaches as far along
/// the diagonals as along the rows and columns.
pub fn chebyshev_distance(a: (i32, i32), b: (i32, i32)) -> (d: i64)
    ensures
        d == chebyshev(a, b),
{
    let dx: i64 = a.0 as i64 - b.0 as i64;
    let dy: i64 = a.1 as i64 - b.1 as i64;
    let dx = if dx < 0 {
        -dx
    } else {
        dx
    };
    let dy = if dy < 0 {
        -dy
    } else {
        dy
    };
    if dx >= dy {
        dx
    } else {
        dy
    }
}

/// Whether an attack from `from` over `range` cells reaches `to`. It does
/// not reach the cell it comes from.
pub open spec fn in_reach(from: Cell, range: i32, to: Cell) -> bool {
    0 < chebyshev(to, from) <= range
}

/// Whether an attack from `from` over `range` cells reaches `to`.
pub fn reaches(from: (i32, i32), range: i32, to: (i32, i32)) -> (hit: bool)
    ensures
        hit == in_reach(from, range, to),
{
    let d = chebyshev_distance(to, from);
    0 < d && d <= range as i64
}

/// The battle after the player has pointed at the unit `id`. While a move
/// or a target is being chosen, and where the unit is gone, nothing
/// happens. Else the unit is selected; and where it is the player's and
/// has yet to act, it becomes the active unit: to move, if a unit to move
/// is being selected, or to attack, if an attacker is.
pub open spec fn pointed_at(v: BattleView, id: UnitId) -> BattleView {
    if v.phase == TurnPhase::SelectMove || v.phase == TurnPhase::SelectTarget || !live(
        v.units,
        id,
    ) {
        v
    } else {
        let r = record_of(v.units, id);
        let seen = BattleView { selected: Some(id), selected_grid: r.grid.cell(), ..v };
        if r.unit.has_acted || r.unit.team != Team::PLAYER {
            seen
        } else if v.phase == TurnPhase::SelectUnit {
            BattleView { active: Some(id), phase: TurnPhase::SelectMove, ..seen }
        } else if v.phase == TurnPhase::SelectAttacker {
            BattleView { active: Some(id), phase: TurnPhase::SelectTarget, ..seen }
        } else {
            seen
        }
    }
}

/// The player points at the unit `id`.
pub fn set_selected_unit(battle: &mut Battle, id: UnitId)
    ensures
        final(battle)@ == pointed_at(old(battle)@, id),
{
    match battle.phase {
        TurnPhase::SelectMove | TurnPhase::SelectTarget => {},
        _ => {
            if let Some(r) = battle.units.get(id) {
                battle.selected.value = Some(id);
                battle.selected.grid = (r.grid.x, r.grid.y);
                if !r.unit.has_acted && r.unit.team == Team::PLAYER {
                    match battle.phase {
                        TurnPhase::SelectUnit => {
                            battle.active.value = Some(id);
                            battle.phase = TurnPhase::SelectMove;
                        },
                        TurnPhase::SelectAttacker => {
                            battle.active.value = Some(id);
                            battle.phase = TurnPhase::SelectTarget;
                        },
                        _ => {},
                    }
                }
            }
        },
    }
}

/// The battle after the player has picked `to` as the destination of the
/// active unit, while a move is being chosen: where a path leads there, of
/// one step at least and of no more steps than the unit may go, the tile is
/// selected and the move begins along that path. Else nothing happens.
pub open spec fn move_chosen(v: BattleView, to: Cell) -> BattleView {
    if v.phase != TurnPhase::SelectMove {
        v
    } else {
        match acting(v, Team::PLAYER) {
            Some(id) => {
                let r = record_of(v.units, id);
                match a_star_path(v.blocked, v.side, r.grid.cell(), to) {
                    Some(path) if 1 <= path.len() <= r.movement.distance => BattleView {
                        selected_tile: to,
                        path,
                        travelled: 0,
                        phase: TurnPhase::DoMove,
                        ..v
                    },
                    _ => v,
                }
            },
            None => v,
        }
    }
}

/// The player picks the tile `(x, y)` as the destination of the active
/// unit.
pub fn select_move(battle: &mut Battle, x: i32, y: i32)
    ensures
        final(battle)@ == move_chosen(old(battle)@, (x, y)),
{
    if battle.phase != TurnPhase::SelectMove {
        return ;
    }
    if let Some((_, r)) = acting_unit(battle, Team::PLAYER) {
        if let Some(path) = calculate_a_star_path((r.grid.x, r.grid.y), (x, y), &battle.blocked) {
            let dist = path.len();
            if dist >= 1 && r.movement.distance >= 0 && dist <= r.movement.distance as usize {
                battle.selected_tile = SelectedTile { x, y };
                battle.phase = TurnPhase::DoMove;
                a_star_initializer(battle);
            }
        }
    }
}

/// One tick of the move of the player's active unit: the unit comes
/// `advance` thousandths of a step nearer to the next cell of its path;
/// with no step left it has acted, and the player selects the next unit.
pub fn move_active_unit(battle: &mut Battle, advance: u32)
    ensures
        final(battle)@ == stepped(
            old(battle)@,
            Team::PLAYER,
            TurnPhase::DoMove,
            TurnPhase::SelectUnit,
            advance,
        ),
{
    step_active_unit(battle, Team::PLAYER, TurnPhase::DoMove, TurnPhase::SelectUnit, advance);
}

/// Whether the player's unit `attacker` may hit `target`: both are there,
/// the target is the computer's, and the attack reaches it.
pub open spec fn may_hit(v: BattleView, attacker: UnitId, target: UnitId) -> bool {
    &&& live(v.units, target)
    &&& record_of(v.units, target).unit.team == Team::AI
    &&& in_reach(
        record_of(v.units, attacker).grid.cell(),
        record_of(v.units, attacker).attack.range,
        record_of(v.units, target).grid.cell(),
    )
}

/// The battle after `attacker` has hit `target` and so has acted, back in
/// the phase `next`.
pub open spec fn struck(
    v: BattleView,
    attacker: UnitId,
    target: UnitId,
    next: TurnPhase,
) -> BattleView {
    let hit = damaged(v, attacker, target);
    BattleView {
        units: with_record(hit.units, attacker, having_acted(record_of(hit.units, attacker))),
        phase: next,
        ..hit
    }
}

/// The battle after the player has picked the unit `target` for the active
/// unit to attack, while a target is being chosen: where the active unit
/// may hit it, it does, and the player selects the next attacker. Else
/// nothing happens.
pub open spec fn target_chosen(v: BattleView, target: UnitId) -> BattleView {
    if v.phase != TurnPhase::SelectTarget {
        v
    } else {
        match acting(v, Team::PLAYER) {
            Some(id) if may_hit(v, id, target) => struck(v, id, target, TurnPhase::SelectAttacker),
            _ => v,
        }
    }
}

/// The first of the units `pointed` that the unit `attacker` may hit.
pub open spec fn first_to_hit(v: BattleView, attacker: UnitId, pointed: Seq<UnitId>) -> Option<
    UnitId,
>
    decreases pointed.len(),
{
    if pointed.len() == 0 {
        None
    } else if may_hit(v, attacker, pointed[0]) {
        Some(pointed[0])
    } else {
        first_to_hit(v, attacker, pointed.subrange(1, pointed.len() as int))
    }
}

/// The unit that the player means to attack, who has pointed at a place
/// where the units `pointed` are seen, the one on top first: the first of
/// them that the player's active unit may hit. There is none without such
/// a unit.
pub fn pick_target(battle: &Battle, pointed: &Vec<UnitId>) -> (found: Option<UnitId>)
    ensures
        found == (match acting(battle@, Team::PLAYER) {
            Some(id) => first_to_hit(battle@, id, pointed@),
            None => None,
        }),
{
    let (id, a) = match acting_unit(battle, Team::PLAYER) {
        Some(found) => found,
        None => return None,
    };
    let mut i: usize = 0;
    assert(pointed@.subrange(0, pointed@.len() as int) == pointed@);
    while i < pointed.len()
        invariant
            i <= pointed@.len(),
            acting(battle@, Team::PLAYER) == Some(id),
            a == record_of(battle@.units, id),
            first_to_hit(battle@, id, pointed@) == first_to_hit(
                battle@,
                id,
                pointed@.subrange(i as int, pointed@.len() as int),
            ),
        decreases pointed@.len() - i,
    {
        let ghost rest = pointed@.subrange(i as int, pointed@.len() as int);
        assert(rest[0] == pointed@[i as int]);
        assert(rest.subrange(1, rest.len() as int) == pointed@.subrange(
            i + 1,
            pointed@.len() as int,
        ));
        if let Some(t) = battle.units.get(pointed[i]) {
            if t.unit.team == Team::AI && reaches(
                (a.grid.x, a.grid.y),
                a.attack.range,
                (t.grid.x, t.grid.y),
            ) {
                return Some(pointed[i]);
            }
        }
        i += 1;
    }
    None
}

/// `attacker` hits `target`, has acted then, and the battle goes to the
/// phase `next`.
pub(crate) fn strike(battle: &mut Battle, attacker: UnitId, target: UnitId, next: TurnPhase)
    requires
        live(old(battle)@.units, attacker),
        live(old(battle)@.units, target),
        attacker.index != target.index,
    ensures
        final(battle)@ == struck(old(battle)@, attacker, target, next),
{
    apply_damage(battle, attacker, target);
    if let Some(r) = battle.units.get(attacker) {
        let mut done = r;
        done.unit.has_acted = true;
        battle.units.set(attacker, done);
    }
    battle.phase = next;
}

/// The player picks the unit `target` for the active unit to attack.
pub fn select_target(battle: &mut Battle, target: UnitId)
    ensures
        final(battle)@ == target_chosen(old(battle)@, target),
{
    if battle.phase != TurnPhase::SelectTarget {
        return ;
    }
    if let Some((id, a)) = acting_unit(battle, Team::PLAYER) {
        if let Some(t) = battle.units.get(target) {
            if t.unit.team == Team::AI && reaches(
                (a.grid.x, a.grid.y),
                a.attack.range,
                (t.grid.x, t.grid.y),
            ) {
                strike(battle, id, target, TurnPhase::SelectAttacker);
            }
        }
    }
}

/// The end of the player's moves, looked for while a unit to move is
/// being selected: once every unit of the player has acted, their flags
/// are taken back and the player selects an attacker.
pub fn check_player_has_moved(battle: &mut Battle) -> (open: bool)
    ensures
        open == (old(battle)@.phase == TurnPhase::SelectUnit && crate::units::all_acted(
            old(battle)@.units,
            Team::PLAYER,
        )),
        final(battle)@ == (if old(battle)@.phase == TurnPhase::SelectUnit {
            closed_part(old(battle)@, Team::PLAYER, TurnPhase::SelectAttacker)
        } else {
            old(battle)@
        }),
{
    if battle.phase == TurnPhase::SelectUnit {
        close_part(battle, Team::PLAYER, TurnPhase::SelectAttacker)
    } else {
        false
    }
}

/// The end of the player's attacks, looked for while an attacker is being
/// selected: once every unit of the player has acted, their flags are
/// taken back and the computer selects a unit to move.
pub fn check_player_has_attacked(battle: &mut Battle) -> (open: bool)
    ensures
        open == (old(battle)@.phase == TurnPhase::SelectAttacker && crate::units::all_acted(
            old(battle)@.units,
            Team::PLAYER,
        )),
        final(battle)@ == (if old(battle)@.phase == TurnPhase::SelectAttacker {
            closed_part(old(battle)@, Team::PLAYER, TurnPhase::AISelectUnit)
        } else {
            old(battle)@
        }),
{
    if battle.phase == TurnPhase::SelectAttacker {
        close_part(battle, Team::PLAYER, TurnPhase::AISelectUnit)
    } else {
        false
    }
}

/// The battle after a key was pressed.
///
/// Escape takes back the choice of the unit that was to move or to attack,
/// and in any phase that of the unit pointed at. Space lets the active unit
/// give up its move or its attack; while a unit or an attacker is being
/// selected, it gives up what is left of that part of the turn, as if every
/// unit had acted.
pub open spec fn keyed(v: BattleView, key: Key) -> BattleView {
    match key {
        Key::Escape => {
            let back = match v.phase {
                TurnPhase::SelectMove => BattleView {
                    phase: TurnPhase::SelectUnit,
                    active: None,
                    ..v
                },
                TurnPhase::SelectTarget => BattleView {
                    phase: TurnPhase::SelectAttacker,
                    active: None,
                    ..v
                },
                _ => v,
            };
            BattleView { selected: None, ..back }
        },
        Key::Space => match v.phase {
            TurnPhase::SelectMove => waited(v, Team::PLAYER, TurnPhase::SelectUnit),
            TurnPhase::SelectTarget => waited(v, Team::PLAYER, TurnPhase::SelectAttacker),
            TurnPhase::SelectUnit => skipped(v, Team::PLAYER, TurnPhase::SelectAttacker),
            TurnPhase::SelectAttacker => skipped(v, Team::PLAYER, TurnPhase::AISelectUnit),
            _ => v,
        },
    }
}

/// A key was pressed.
pub fn handle_keys(battle: &mut Battle, key: Key)
    ensures
        final(battle)@ == keyed(old(battle)@, key),
{
    match key {
        Key::Escape => {
            match battle.phase {
                TurnPhase::SelectMove => {
                    battle.phase = TurnPhase::SelectUnit;
                    battle.active.value = None;
                },
                TurnPhase::SelectTarget => {
                    battle.phase = TurnPhase::SelectAttacker;
                    battle.active.value = None;
                },
                _ => {},
            }
            battle.selected.value = None;
        },
        Key::Space => {
            match battle.phase {
                TurnPhase::SelectMove => wait(battle, Team::PLAYER, TurnPhase::SelectUnit),
                TurnPhase::SelectTarget => wait(battle, Team::PLAYER, TurnPhase::SelectAttacker),
                TurnPhase::SelectUnit => skip(battle, Team::PLAYER, TurnPhase::SelectAttacker),
                TurnPhase::SelectAttacker => skip(battle, Team::PLAYER, TurnPhase::AISelectUnit),
                _ => {},
            }
        },
    }
}

/// The unit that `spawn_unit` makes of these numbers.
pub open spec fn fresh_unit(
    team: Team,
    grid: Cell,
    movement: i32,
    health: i32,
    dmg: i32,
    range: i32,
) -> UnitRecord {
    UnitRecord {
        unit: Unit { has_acted: false, team },
        grid: GridPosition { x: grid.0, y: grid.1 },
        movement: Movement { distance: movement },
        health: Health { max: health, value: health },
        attack: Attack { dmg, range },
    }
}

/// Puts a new unit of the player on the cell `grid`: in full health, and
/// with its action still to come.
pub fn spawn_unit(
    units: &mut Units,
    grid: (i32, i32),
    movement: i32,
    health: i32,
    dmg: i32,
    range: i32,
) -> (id: UnitId)
    ensures
        new_handle(old(units)@, id),
        final(units)@ == joined(
            old(units)@,
            id,
            fresh_unit(Team::PLAYER, grid, movement, health, dmg, range),
        ),
{
    units.spawn(
        UnitRecord {
            unit: Unit { has_acted: false, team: Team::PLAYER },
            grid: GridPosition { x: grid.0, y: grid.1 },
            movement: Movement { distance: movement },
            health: Health { max: health, value: health },
            attack: Attack { dmg, range },
        },
    )
}

/// The player's unit number `i` of three, as it begins on a board of
/// `rows_cols` rows: one that is strong and slow, one that is fast, one
/// that reaches far.
pub open spec fn starting_unit(rows_cols: u16, i: int) -> UnitRecord {
    if i == 0 {
        fresh_unit(Team::PLAYER, starting_cell(rows_cols, 0), 1, 20, 7, 1)
    } else if i == 1 {
        fresh_unit(Team::PLAYER, starting_cell(rows_cols, 1), 5, 15, 3, 1)
    } else {
        fresh_unit(Team::PLAYER, starting_cell(rows_cols, 2), 3, 10, 5, 4)
    }
}

/// Puts the player's three units in the middle of a board of `rows_cols`
/// rows, one after the other. Their handles are returned in that order.
/// Where the units on the board stood apart, and none of them on one of
/// the three cells, all units stand apart.
pub fn make_units(units: &mut Units, rows_cols: u16) -> (made: Vec<UnitId>)
    ensures
        made@.len() == 3,
        new_handle(old(units)@, made@[0]),
        new_handle(joined(old(units)@, made@[0], starting_unit(rows_cols, 0)), made@[1]),
        new_handle(
            joined(
                joined(old(units)@, made@[0], starting_unit(rows_cols, 0)),
                made@[1],
                starting_unit(rows_cols, 1),
            ),
            made@[2],
        ),
        final(units)@ == joined(
            joined(
                joined(old(units)@, made@[0], starting_unit(rows_cols, 0)),
                made@[1],
                starting_unit(rows_cols, 1),
            ),
            made@[2],
            starting_unit(rows_cols, 2),
        ),
        forall|i: int|
            0 <= i < 3 ==> live(final(units)@, #[trigger] made@[i]) && !live(old(units)@, made@[i])
                && record_of(final(units)@, made@[i]) == starting_unit(rows_cols, i),
        forall|other: UnitId|
            live(old(units)@, other) ==> live(final(units)@, other) && record_of(
                final(units)@,
                other,
            ) == record_of(old(units)@, other),
        forall|other: UnitId|
            #![trigger live(final(units)@, other)]
            live(final(units)@, other) ==> live(old(units)@, other) || made@.contains(other),
        apart(old(units)@) && (forall|i: int|
            0 <= i < 3 ==> !unit_on(old(units)@, #[trigger] starting_cell(rows_cols, i)))
            ==> apart(final(units)@),
{
    let mid = (rows_cols / 2) as i32;
    let mut made: Vec<UnitId> = Vec::new();
    let ghost u0 = units@;
    let first = spawn_unit(units, (mid, mid), 1, 20, 7, 1);
    let ghost u1 = units@;
    let second = spawn_unit(units, (mid - 1, mid), 5, 15, 3, 1);
    let ghost u2 = units@;
    let third = spawn_unit(units, (mid + 1, mid), 3, 10, 5, 4);
    made.push(first);
    made.push(second);
    made.push(third);
    proof {
        lemma_joined(u0, first, starting_unit(rows_cols, 0));
        lemma_joined(u1, second, starting_unit(rows_cols, 1));
        lemma_joined(u2, third, starting_unit(rows_cols, 2));
        assert(made@[0] == first && made@[1] == second && made@[2] == third);
        assert(starting_cell(rows_cols, 0) == (mid, mid));
        assert(starting_cell(rows_cols, 1) == ((mid - 1) as i32, mid));
        assert(starting_cell(rows_cols, 2) == ((mid + 1) as i32, mid));
    }
    made
}

} // verus!
