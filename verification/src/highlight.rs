//! Which tiles are to be shown in another colour: the tile of the unit
//! pointed at, the tiles that the active unit may move to, and the tiles of
//! the units that it may attack.

use crate::ai_units::{eligible, in_range, path_steps, steps};
use crate::battle::{acting, acting_unit, Battle, BattleView};
use crate::grid::{make_tiles, on_grid, tile_at, GridPosition};
use crate::player_units::reaches;
use crate::units::{live, record_of, Team, UnitSlot};
use vstd::prelude::*;

verus! {

/// Whether the tile with number `k` is one to move to from `at`: a free
/// tile other than `at` that a path of `reach` steps or fewer leads to.
pub open spec fn to_move_to(v: BattleView, at: (i32, i32), reach: i32, k: int) -> bool {
    eligible(v.blocked, v.side, at, reach, k) && steps(
        v.blocked,
        v.side,
        at,
        tile_at(v.side, k).cell(),
    ) != Some(0int)
}

/// Of the first `n` tiles, those to move to from `at`, in their order.
pub open spec fn reachable_among(v: BattleView, at: (i32, i32), reach: i32, n: nat) -> Seq<
    GridPosition,
>
    decreases n,
{
    if n == 0 {
        Seq::empty()
    } else {
        let before = reachable_among(v, at, reach, (n - 1) as nat);
        if to_move_to(v, at, reach, n - 1) {
            before.push(tile_at(v.side, n - 1))
        } else {
            before
        }
    }
}

/// Of the units in the first `n` slots, the places of those of the team
/// `foe` that an attack from `at` over `range` cells reaches, in their
/// order.
pub open spec fn attackable_among(
    units: Seq<UnitSlot>,
    at: (i32, i32),
    range: i32,
    foe: Team,
    n: nat,
) -> Seq<GridPosition>
    decreases n,
{
    if n == 0 {
        Seq::empty()
    } else {
        let before = attackable_among(units, at, range, foe, (n - 1) as nat);
        if in_range(units, at, range, foe, n - 1) {
            before.push(units[n - 1].record->0.grid)
        } else {
            before
        }
    }
}

/// The tile of the unit that was last pointed at, where the unit is there
/// still.
pub fn highlight_selected_unit(battle: &Battle) -> (tile: Option<GridPosition>)
    ensures
        tile == (match battle@.selected {
            Some(id) if live(battle@.units, id) => Some(record_of(battle@.units, id).grid),
            _ => None,
        }),
{
    match battle.selected.value {
        Some(id) => match battle.units.get(id) {
            Some(r) => Some(r.grid),
            None => None,
        },
        None => None,
    }
}

/// The tiles that the active unit may move to: the free tiles, other than
/// its own, that a path of no more steps than the unit may go leads to.
/// Without an active unit there are none.
pub fn highlight_reachable_tiles(battle: &Battle) -> (tiles: Vec<GridPosition>)
    ensures
        tiles@ == (match battle@.active {
            Some(id) if live(battle@.units, id) => reachable_among(
                battle@,
                record_of(battle@.units, id).grid.cell(),
                record_of(battle@.units, id).movement.distance,
                (battle@.side * battle@.side) as nat,
            ),
            _ => Seq::empty(),
        }),
{
    let mut found: Vec<GridPosition> = Vec::new();
    let r = match battle.active.value {
        Some(id) => match battle.units.get(id) {
            Some(r) => r,
            None => return found,
        },
        None => return found,
    };
    let at = (r.grid.x, r.grid.y);
    let reach = r.movement.distance;
    let tiles = make_tiles(battle.blocked.rows_cols());
    let ghost v = battle@;
    let mut k: usize = 0;
    while k < tiles.len()
        invariant
            k <= tiles@.len(),
            v == battle@,
            tiles@.len() == v.side * v.side,
            forall|i: int| 0 <= i < tiles@.len() ==> tiles@[i] == tile_at(v.side, i),
            forall|i: int| 0 <= i < tiles@.len() ==> on_grid(v.side, (#[trigger] tiles@[i]).cell()),
            found@ == reachable_among(v, at, reach, k as nat),
        decreases tiles@.len() - k,
    {
        let tile = tiles[k];
        assert(on_grid(v.side, tiles@[k as int].cell()));
        if let Some(false) = battle.blocked.get(tile.x, tile.y) {
            let within = match path_steps(at, (tile.x, tile.y), &battle.blocked) {
                Some(n) => n > 0 && reach >= 0 && n <= reach as usize,
                None => false,
            };
            if within {
                found.push(tile);
            }
        }
        k += 1;
    }
    found
}

/// The tiles of the computer's units that the player's active unit may
/// attack. Without such a unit there are none.
pub fn highlight_attackable_tiles(battle: &Battle) -> (tiles: Vec<GridPosition>)
    ensures
        tiles@ == (match acting(battle@, Team::PLAYER) {
            Some(id) => attackable_among(
                battle@.units,
                record_of(battle@.units, id).grid.cell(),
                record_of(battle@.units, id).attack.range,
                Team::AI,
                battle@.units.len(),
            ),
            None => Seq::empty(),
        }),
{
    let mut found: Vec<GridPosition> = Vec::new();
    let r = match acting_unit(battle, Team::PLAYER) {
        Some((_, r)) => r,
        None => return found,
    };
    let at = (r.grid.x, r.grid.y);
    let mut i: usize = 0;
    while i < battle.units.len()
        invariant
            i <= battle.units@.len(),
            found@ == attackable_among(battle.units@, at, r.attack.range, Team::AI, i as nat),
        decreases battle.units@.len() - i,
    {
        if let Some(slot) = battle.units.slot(i) {
            if let Some(foe) = slot.record {
                let there = (foe.grid.x, foe.grid.y);
                if foe.unit.team == Team::AI && reaches(at, r.attack.range, there) {
                    found.push(foe.grid);
                }
            }
        }
        i += 1;
    }
    found
}

} // verus!
