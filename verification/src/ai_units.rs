//! The computer's part of the turn: which unit acts next, where it moves,
//! and which of the player's units it attacks.

use crate::battle::{
    a_star_initializer, acting, acting_unit, close_part, closed_part, having_acted, routed,
    step_active_unit, stepped, with_record, Battle, BattleView,
};
use crate::grid::{
    make_tiles, on_grid, tile_at, BlockedTiles, Cell, GridPosition, SelectedTile, Spawners,
};
use crate::pathfinding::{a_star_path, calculate_a_star_path, lemma_search_stays};
use crate::player_units::{chebyshev_distance, fresh_unit, in_reach, reaches, strike, struck};
use crate::route::chebyshev;
use crate::states::TurnPhase;
use crate::units::{
    all_acted, apart, cell_of, id_at, joined, lemma_joined, live, new_handle, next_ready,
    occupied, on_team, record_of, stands_on, unit_on, AllUnitsActed, Attack, Health, Movement,
    Team, Unit, UnitId, UnitRecord, UnitSlot, Units,
};
use rand::Rng;
use vstd::prelude::*;

verus! {

/// What the units of one kind have in common when they come in.
#[derive(Clone, Copy, Debug, PartialEq, Eq, Structural)]
pub struct UnitJson {
    pub movement: i32,
    pub health: i32,
    pub damage: i32,
    pub range: i32,
}

/// `rand::Rng::gen_range` on the generator of `rand::thread_rng`, with the
/// range from 0 up to `n`, without `n`: some number of that range. Which
/// one, nothing says.
#[verifier::external_body]
fn random_index(n: usize) -> (i: usize)
    requires
        n > 0,
    ensures
        i < n,
{
    rand::thread_rng().gen_range(0..n)
}

/// The number of steps of the path that the search finds, if it finds one.
pub open spec fn steps(grid: Map<Cell, bool>, side: int, from: Cell, to: Cell) -> Option<int> {
    match a_star_path(grid, side, from, to) {
        Some(path) => Some(path.len() as int),
        None => None,
    }
}

/// A number of steps as an integer.
pub open spec fn counted(steps: Option<usize>) -> Option<int> {
    match steps {
        Some(n) => Some(n as int),
        None => None,
    }
}

/// Whether `a` steps are fewer than `b`. No path at all is further than
/// any path.
pub open spec fn nearer(a: Option<int>, b: Option<int>) -> bool {
    match a {
        Some(x) => match b {
            Some(y) => x < y,
            None => true,
        },
        None => false,
    }
}

/// The grid with the cell `c` free.
pub open spec fn freed(grid: Map<Cell, bool>, c: Cell) -> Map<Cell, bool> {
    if grid.dom().contains(c) {
        grid.insert(c, false)
    } else {
        grid
    }
}

/// How far the unit in slot `i` is from the cell `at`, the place of the
/// unit that looks for it: the steps of the path between the two, for
/// which neither of them is in the way.
pub open spec fn gap(
    units: Seq<UnitSlot>,
    grid: Map<Cell, bool>,
    side: int,
    at: Cell,
    i: int,
) -> Option<int> {
    steps(freed(grid, at), side, cell_of(units, i), at)
}

/// Whether slot `i` holds the unit of the team `foe` that is nearest to
/// `at`: no other is nearer, and those in the slots before are further.
pub open spec fn nearest_foe(
    units: Seq<UnitSlot>,
    grid: Map<Cell, bool>,
    side: int,
    at: Cell,
    foe: Team,
    i: int,
) -> bool {
    &&& on_team(units, foe, i)
    &&& forall|j: int| #[trigger]
        on_team(units, foe, j) ==> !nearer(
            gap(units, grid, side, at, j),
            gap(units, grid, side, at, i),
        ) && (j < i ==> nearer(gap(units, grid, side, at, i), gap(units, grid, side, at, j)))
}

/// Whether the tile with number `k` is one that a unit at `at` may move
/// to: it is free, and a path of `reach` steps or fewer leads there.
pub open spec fn eligible(grid: Map<Cell, bool>, side: int, at: Cell, reach: i32, k: int) -> bool {
    &&& 0 <= k < side * side
    &&& !grid[tile_at(side, k).cell()]
    &&& steps(grid, side, at, tile_at(side, k).cell()) matches Some(n) && n <= reach
}

/// How far the tile with number `k` is from the cell `foe_at`.
pub open spec fn far(grid: Map<Cell, bool>, side: int, foe_at: Cell, k: int) -> Option<int> {
    steps(grid, side, foe_at, tile_at(side, k).cell())
}

/// Whether the tile with number `k` is the one to move to: of the tiles
/// that the unit may move to, none is nearer to `foe_at`, and those with a
/// lower number are further from it.
pub open spec fn best_tile(
    grid: Map<Cell, bool>,
    side: int,
    at: Cell,
    reach: i32,
    foe_at: Cell,
    k: int,
) -> bool {
    &&& eligible(grid, side, at, reach, k)
    &&& forall|j: int| #[trigger]
        eligible(grid, side, at, reach, j) ==> !nearer(
            far(grid, side, foe_at, j),
            far(grid, side, foe_at, k),
        ) && (j < k ==> nearer(far(grid, side, foe_at, k), far(grid, side, foe_at, j)))
}

/// Where the computer's unit `id` moves. Without a unit of the player on
/// the grid it stays. Else it looks to the player's unit that is nearest:
/// where its attack reaches as far as that unit is away, it stays; else it
/// goes to the tile nearest to that unit among those it may move to; and it
/// stays where there is no such tile.
pub open spec fn destination(v: BattleView, id: UnitId) -> Cell {
    let r = record_of(v.units, id);
    let at = r.grid.cell();
    if !(exists|i: int| on_team(v.units, Team::PLAYER, i)) {
        at
    } else {
        let foe_at = cell_of(
            v.units,
            choose|i: int| nearest_foe(v.units, v.blocked, v.side, at, Team::PLAYER, i),
        );
        if chebyshev(at, foe_at) <= r.attack.range {
            at
        } else if !(exists|k: int| eligible(v.blocked, v.side, at, r.movement.distance, k)) {
            at
        } else {
            tile_at(
                v.side,
                choose|k: int| best_tile(v.blocked, v.side, at, r.movement.distance, foe_at, k),
            ).cell()
        }
    }
}

/// Whether the path of the team's active unit has no more steps than the
/// unit may go.
pub open spec fn within_reach(v: BattleView, team: Team) -> bool {
    acting(v, team) matches Some(id) ==> v.path.len() == 0 || v.path.len() <= record_of(
        v.units,
        id,
    ).movement.distance
}

/// The battle after the computer has chosen where its active unit moves,
/// while a move is being chosen: the tile is selected and the move begins.
/// Without an active unit of the computer nothing happens.
pub open spec fn ai_move_chosen(v: BattleView) -> BattleView {
    if v.phase != TurnPhase::AISelectMove {
        v
    } else {
        match acting(v, Team::AI) {
            Some(id) => routed(
                BattleView { selected_tile: destination(v, id), phase: TurnPhase::AIDoMove, ..v },
            ),
            None => v,
        }
    }
}

/// Whether slot `i` holds a unit of the team `foe` that an attack from
/// `at` over `range` cells reaches.
pub open spec fn in_range(units: Seq<UnitSlot>, at: Cell, range: i32, foe: Team, i: int) -> bool {
    on_team(units, foe, i) && in_reach(at, range, cell_of(units, i))
}

/// Whether slot `i` is the first to hold such a unit.
pub open spec fn first_in_range(
    units: Seq<UnitSlot>,
    at: Cell,
    range: i32,
    foe: Team,
    i: int,
) -> bool {
    &&& in_range(units, at, range, foe, i)
    &&& forall|j: int| 0 <= j < i ==> !#[trigger] in_range(units, at, range, foe, j)
}

/// The unit of the team `foe` to attack from `at`: the first that the
/// attack reaches, if it reaches one.
pub open spec fn next_target(units: Seq<UnitSlot>, at: Cell, range: i32, foe: Team) -> Option<
    UnitId,
> {
    if exists|i: int| in_range(units, at, range, foe, i) {
        Some(id_at(units, choose|i: int| first_in_range(units, at, range, foe, i)))
    } else {
        None
    }
}

/// Where an attack reaches a unit in slot `i`, there is a first slot with
/// such a unit.
pub proof fn lemma_first_in_range(units: Seq<UnitSlot>, at: Cell, range: i32, foe: Team, i: int)
    requires
        in_range(units, at, range, foe, i),
    ensures
        exists|k: int| first_in_range(units, at, range, foe, k),
    decreases i,
{
    if exists|j: int| 0 <= j < i && in_range(units, at, range, foe, j) {
        let j = choose|j: int| 0 <= j < i && in_range(units, at, range, foe, j);
        lemma_first_in_range(units, at, range, foe, j);
    } else {
        assert(first_in_range(units, at, range, foe, i));
    }
}

/// The unit to attack is there, and it is of the team `foe`.
pub proof fn lemma_target_is_foe(units: Seq<UnitSlot>, at: Cell, range: i32, foe: Team)
    requires
        units.len() <= usize::MAX,
    ensures
        next_target(units, at, range, foe) matches Some(target) ==> live(units, target)
            && record_of(units, target).unit.team == foe,
{
    if exists|i: int| in_range(units, at, range, foe, i) {
        let i = choose|i: int| in_range(units, at, range, foe, i);
        lemma_first_in_range(units, at, range, foe, i);
    }
}

/// The battle after the computer's active unit has attacked, while a
/// target is being chosen: it has hit the first unit of the player that its
/// attack reaches, if there is one, and it has acted either way. The
/// computer selects the next attacker. Without an active unit of the
/// computer nothing happens.
pub open spec fn ai_target_chosen(v: BattleView) -> BattleView {
    if v.phase != TurnPhase::AISelectTarget {
        v
    } else {
        match acting(v, Team::AI) {
            Some(id) => {
                let r = record_of(v.units, id);
                match next_target(v.units, r.grid.cell(), r.attack.range, Team::PLAYER) {
                    Some(target) => struck(v, id, target, TurnPhase::AISelectAttacker),
                    None => BattleView {
                        units: with_record(v.units, id, having_acted(r)),
                        phase: TurnPhase::AISelectAttacker,
                        ..v
                    },
                }
            },
            None => v,
        }
    }
}

/// The battle after the computer has selected its next unit for `then`,
/// in the phase `now`: the first of its units that has yet to act.
pub open spec fn ai_unit_chosen(v: BattleView, now: TurnPhase, then: TurnPhase) -> BattleView {
    if v.phase != now {
        v
    } else {
        match next_ready(v.units, Team::AI) {
            Some(id) => BattleView { active: Some(id), phase: then, ..v },
            None => v,
        }
    }
}

/// The number of steps from `from` to `to`, where a path leads there.
pub fn path_steps(from: (i32, i32), to: (i32, i32), blocked: &BlockedTiles) -> (found: Option<
    usize,
>)
    ensures
        counted(found) == steps(blocked@, blocked.side(), from, to),
{
    match calculate_a_star_path(from, to, blocked) {
        Some(path) => Some(path.len()),
        None => None,
    }
}

/// Whether `a` steps are fewer than `b`.
pub fn closer(a: Option<usize>, b: Option<usize>) -> (fewer: bool)
    ensures
        fewer == nearer(counted(a), counted(b)),
{
    match a {
        Some(x) => match b {
            Some(y) => x < y,
            None => true,
        },
        None => false,
    }
}

/// Only one slot holds the nearest unit.
pub proof fn lemma_one_nearest_foe(
    units: Seq<UnitSlot>,
    grid: Map<Cell, bool>,
    side: int,
    at: Cell,
    foe: Team,
    i: int,
    j: int,
)
    requires
        nearest_foe(units, grid, side, at, foe, i),
        nearest_foe(units, grid, side, at, foe, j),
    ensures
        i == j,
{
}

/// Only one tile is the one to move to.
pub proof fn lemma_one_best_tile(
    grid: Map<Cell, bool>,
    side: int,
    at: Cell,
    reach: i32,
    foe_at: Cell,
    k: int,
    j: int,
)
    requires
        best_tile(grid, side, at, reach, foe_at, k),
        best_tile(grid, side, at, reach, foe_at, j),
    ensures
        k == j,
{
}

/// The slot of the unit of the team `foe` that is nearest to the cell
/// `at`, by the steps of the path between the two; `None` where the team
/// has no unit.
pub fn nearest_opponent(
    units: &Units,
    blocked: &mut BlockedTiles,
    at: (i32, i32),
    foe: Team,
) -> (found: Option<usize>)
    ensures
        final(blocked)@ == old(blocked)@,
        final(blocked).side() == old(blocked).side(),
        match found {
            Some(i) => nearest_foe(units@, old(blocked)@, old(blocked).side(), at, foe, i as int),
            None => forall|j: int| !on_team(units@, foe, j),
        },
{
    let was = blocked.get(at.0, at.1);
    blocked.insert(at.0, at.1, false);
    let ghost grid = old(blocked)@;
    let ghost side = old(blocked).side();
    assert(blocked@ == freed(grid, at));
    let mut best: Option<usize> = None;
    let mut best_gap: Option<usize> = None;
    let mut i: usize = 0;
    while i < units.len()
        invariant
            i <= units@.len(),
            blocked@ == freed(grid, at),
            blocked.side() == side,
            best is None ==> forall|j: int| 0 <= j < i ==> !on_team(units@, foe, j),
            best matches Some(b) ==> {
                &&& b < i
                &&& on_team(units@, foe, b as int)
                &&& counted(best_gap) == gap(units@, grid, side, at, b as int)
                &&& forall|j: int|
                    0 <= j < i && #[trigger] on_team(units@, foe, j) ==> !nearer(
                        gap(units@, grid, side, at, j),
                        gap(units@, grid, side, at, b as int),
                    ) && (j < b ==> nearer(
                        gap(units@, grid, side, at, b as int),
                        gap(units@, grid, side, at, j),
                    ))
            },
        decreases units@.len() - i,
    {
        if let Some(slot) = units.slot(i) {
            if let Some(r) = slot.record {
                if r.unit.team == foe {
                    let key = path_steps((r.grid.x, r.grid.y), at, blocked);
                    assert(counted(key) == gap(units@, grid, side, at, i as int));
                    if best.is_none() || closer(key, best_gap) {
                        best = Some(i);
                        best_gap = key;
                    }
                }
            }
        }
        i += 1;
    }
    if let Some(b) = was {
        blocked.insert(at.0, at.1, b);
    }
    assert(blocked@ =~= grid);
    best
}

/// The tile that a unit at `at` moves to, to come near the cell `foe_at`:
/// of the free tiles that it reaches in `reach` steps or fewer, the one
/// with the shortest path from `foe_at`, and of several such the first.
/// `None` where it reaches no free tile.
pub fn nearest_tile(
    blocked: &BlockedTiles,
    at: (i32, i32),
    reach: i32,
    foe_at: (i32, i32),
) -> (found: Option<(i32, i32)>)
    ensures
        match found {
            Some(c) => exists|k: int|
                #[trigger] best_tile(blocked@, blocked.side(), at, reach, foe_at, k) && c
                    == tile_at(blocked.side(), k).cell(),
            None => forall|k: int| !eligible(blocked@, blocked.side(), at, reach, k),
        },
{
    let tiles = make_tiles(blocked.rows_cols());
    let ghost grid = blocked@;
    let ghost side = blocked.side();
    let mut best: Option<(i32, i32)> = None;
    let mut best_far: Option<usize> = None;
    let ghost mut b: int = 0;
    let mut k: usize = 0;
    while k < tiles.len()
        invariant
            k <= tiles@.len(),
            grid == blocked@,
            side == blocked.side(),
            tiles@.len() == side * side,
            forall|i: int| 0 <= i < tiles@.len() ==> tiles@[i] == tile_at(side, i),
            forall|i: int| 0 <= i < tiles@.len() ==> on_grid(side, (#[trigger] tiles@[i]).cell()),
            best is None ==> forall|j: int| 0 <= j < k ==> !eligible(grid, side, at, reach, j),
            best matches Some(c) ==> {
                &&& 0 <= b < k
                &&& c == tile_at(side, b).cell()
                &&& eligible(grid, side, at, reach, b)
                &&& counted(best_far) == far(grid, side, foe_at, b)
                &&& forall|j: int|
                    0 <= j < k && #[trigger] eligible(grid, side, at, reach, j) ==> !nearer(
                        far(grid, side, foe_at, j),
                        far(grid, side, foe_at, b),
                    ) && (j < b ==> nearer(far(grid, side, foe_at, b), far(grid, side, foe_at, j)))
            },
        decreases tiles@.len() - k,
    {
        let tile = tiles[k];
        assert(on_grid(side, tiles@[k as int].cell()));
        if let Some(false) = blocked.get(tile.x, tile.y) {
            let within = match path_steps(at, (tile.x, tile.y), blocked) {
                Some(n) => reach >= 0 && n <= reach as usize,
                None => false,
            };
            if within {
                assert(eligible(grid, side, at, reach, k as int));
                let key = path_steps(foe_at, (tile.x, tile.y), blocked);
                if best.is_none() || closer(key, best_far) {
                    best = Some((tile.x, tile.y));
                    best_far = key;
                    proof {
                        b = k as int;
                    }
                }
            }
        }
        k += 1;
    }
    proof {
        if best is Some {
            assert(best_tile(grid, side, at, reach, foe_at, b));
        }
    }
    best
}

/// Where the computer's unit `id` moves; `None` where the unit is gone.
pub fn select_destination(battle: &mut Battle, id: UnitId) -> (to: Option<(i32, i32)>)
    ensures
        final(battle)@ == old(battle)@,
        to == (if live(old(battle)@.units, id) {
            Some(destination(old(battle)@, id))
        } else {
            None
        }),
        to matches Some(c) ==> c == record_of(old(battle)@.units, id).grid.cell() || (steps(
            old(battle)@.blocked,
            old(battle)@.side,
            record_of(old(battle)@.units, id).grid.cell(),
            c,
        ) matches Some(n) && n <= record_of(old(battle)@.units, id).movement.distance),
{
    let r = match battle.units.get(id) {
        Some(r) => r,
        None => return None,
    };
    let at = (r.grid.x, r.grid.y);
    let ghost v = battle@;
    let to = match nearest_opponent(&battle.units, &mut battle.blocked, at, Team::PLAYER) {
        None => at,
        Some(i) => {
            proof {
                let chosen = choose|i: int|
                    nearest_foe(v.units, v.blocked, v.side, at, Team::PLAYER, i);
                lemma_one_nearest_foe(
                    v.units,
                    v.blocked,
                    v.side,
                    at,
                    Team::PLAYER,
                    i as int,
                    chosen,
                );
            }
            let foe_at = match battle.units.slot(i) {
                Some(slot) => match slot.record {
                    Some(foe) => (foe.grid.x, foe.grid.y),
                    None => at,
                },
                None => at,
            };
            if chebyshev_distance(at, foe_at) <= r.attack.range as i64 {
                at
            } else {
                match nearest_tile(&battle.blocked, at, r.movement.distance, foe_at) {
                    Some(c) => {
                        proof {
                            let k = choose|k: int|
                                #[trigger] best_tile(
                                    v.blocked,
                                    v.side,
                                    at,
                                    r.movement.distance,
                                    foe_at,
                                    k,
                                ) && c == tile_at(v.side, k).cell();
                            let chosen = choose|k: int|
                                best_tile(v.blocked, v.side, at, r.movement.distance, foe_at, k);
                            lemma_one_best_tile(
                                v.blocked,
                                v.side,
                                at,
                                r.movement.distance,
                                foe_at,
                                k,
                                chosen,
                            );
                        }
                        c
                    },
                    None => at,
                }
            }
        },
    };
    Some(to)
}

/// The computer chooses where its active unit moves. The move that begins
/// has no more steps than the unit may go. Without an active unit of the
/// computer nothing happens.
pub fn select_move(battle: &mut Battle)
    ensures
        final(battle)@ == ai_move_chosen(old(battle)@),
        old(battle)@.phase == TurnPhase::AISelectMove ==> within_reach(final(battle)@, Team::AI),
{
    if battle.phase != TurnPhase::AISelectMove {
        return ;
    }
    if let Some((id, r)) = acting_unit(battle, Team::AI) {
        let to = match select_destination(battle, id) {
            Some(to) => to,
            None => (r.grid.x, r.grid.y),
        };
        proof {
            battle.blocked.rows_cols_bound();
            lemma_search_stays(battle@.blocked, battle@.side, r.grid.cell());
        }
        battle.selected_tile = SelectedTile { x: to.0, y: to.1 };
        battle.phase = TurnPhase::AIDoMove;
        a_star_initializer(battle);
    }
}

/// The computer selects the unit that moves next: the first of its units
/// that has yet to act.
pub fn select_unit(battle: &mut Battle)
    ensures
        final(battle)@ == ai_unit_chosen(
            old(battle)@,
            TurnPhase::AISelectUnit,
            TurnPhase::AISelectMove,
        ),
{
    if battle.phase == TurnPhase::AISelectUnit {
        if let Some(id) = battle.units.first_ready(Team::AI) {
            battle.active.value = Some(id);
            battle.phase = TurnPhase::AISelectMove;
        }
    }
}

/// The computer selects the unit that attacks next: the first of its units
/// that has yet to act.
pub fn select_attacker(battle: &mut Battle)
    ensures
        final(battle)@ == ai_unit_chosen(
            old(battle)@,
            TurnPhase::AISelectAttacker,
            TurnPhase::AISelectTarget,
        ),
{
    if battle.phase == TurnPhase::AISelectAttacker {
        if let Some(id) = battle.units.first_ready(Team::AI) {
            battle.active.value = Some(id);
            battle.phase = TurnPhase::AISelectTarget;
        }
    }
}

/// The end of the computer's moves, looked for while a unit to move is
/// being selected: once every unit of the computer has acted, their flags
/// are taken back and the computer selects an attacker.
pub fn check_ai_has_moved(battle: &mut Battle) -> (open: AllUnitsActed)
    ensures
        open.value == (old(battle)@.phase == TurnPhase::AISelectUnit && all_acted(
            old(battle)@.units,
            Team::AI,
        )),
        final(battle)@ == (if old(battle)@.phase == TurnPhase::AISelectUnit {
            closed_part(old(battle)@, Team::AI, TurnPhase::AISelectAttacker)
        } else {
            old(battle)@
        }),
{
    if battle.phase == TurnPhase::AISelectUnit {
        AllUnitsActed { value: close_part(battle, Team::AI, TurnPhase::AISelectAttacker) }
    } else {
        AllUnitsActed { value: false }
    }
}

/// The end of the computer's attacks, looked for while an attacker is
/// being selected: once every unit of the computer has acted, their flags
/// are taken back and the player selects a unit to move.
pub fn check_enemy_has_attacked(battle: &mut Battle) -> (open: AllUnitsActed)
    ensures
        open.value == (old(battle)@.phase == TurnPhase::AISelectAttacker && all_acted(
            old(battle)@.units,
            Team::AI,
        )),
        final(battle)@ == (if old(battle)@.phase == TurnPhase::AISelectAttacker {
            closed_part(old(battle)@, Team::AI, TurnPhase::SelectUnit)
        } else {
            old(battle)@
        }),
{
    if battle.phase == TurnPhase::AISelectAttacker {
        AllUnitsActed { value: close_part(battle, Team::AI, TurnPhase::SelectUnit) }
    } else {
        AllUnitsActed { value: false }
    }
}

/// One tick of the move of the computer's active unit: the unit comes
/// `advance` thousandths of a step nearer to the next cell of its path;
/// with no step left it has acted, and the computer selects the next unit.
pub fn move_active_unit(battle: &mut Battle, advance: u32)
    ensures
        final(battle)@ == stepped(
            old(battle)@,
            Team::AI,
            TurnPhase::AIDoMove,
            TurnPhase::AISelectUnit,
            advance,
        ),
{
    step_active_unit(battle, Team::AI, TurnPhase::AIDoMove, TurnPhase::AISelectUnit, advance);
}

/// The first unit of the team `foe` that an attack from `at` over `range`
/// cells reaches.
pub fn first_target(units: &Units, at: (i32, i32), range: i32, foe: Team) -> (found: Option<UnitId>)
    ensures
        found == next_target(units@, at, range, foe),
        found matches Some(id) ==> live(units@, id) && record_of(units@, id).unit.team == foe,
{
    let mut i: usize = 0;
    while i < units.len()
        invariant
            i <= units@.len(),
            forall|j: int| 0 <= j < i ==> !#[trigger] in_range(units@, at, range, foe, j),
        decreases units@.len() - i,
    {
        if let Some(slot) = units.slot(i) {
            if let Some(r) = slot.record {
                if r.unit.team == foe && reaches(at, range, (r.grid.x, r.grid.y)) {
                    proof {
                        assert(first_in_range(units@, at, range, foe, i as int));
                        assert(in_range(units@, at, range, foe, i as int));
                        let k = choose|k: int| first_in_range(units@, at, range, foe, k);
                        assert(first_in_range(units@, at, range, foe, k));
                        assert(k == i) by {
                            if k < i {
                                assert(!in_range(units@, at, range, foe, k));
                            } else if i < k {
                                assert(!in_range(units@, at, range, foe, i as int));
                            }
                        }
                    }
                    return Some(UnitId { index: i, generation: slot.generation });
                }
            }
        }
        i += 1;
    }
    proof {
        assert forall|j: int| !in_range(units@, at, range, foe, j) by {
            if in_range(units@, at, range, foe, j) {
                assert(occupied(units@, j));
            }
        }
    }
    None
}

/// The computer's active unit attacks: the first unit of the player that
/// its attack reaches, or none. Without an active unit of the computer
/// nothing happens.
pub fn select_target(battle: &mut Battle)
    ensures
        final(battle)@ == ai_target_chosen(old(battle)@),
{
    if battle.phase != TurnPhase::AISelectTarget {
        return ;
    }
    if let Some((id, r)) = acting_unit(battle, Team::AI) {
        match first_target(&battle.units, (r.grid.x, r.grid.y), r.attack.range, Team::PLAYER) {
            Some(target) => {
                strike(battle, id, target, TurnPhase::AISelectAttacker);
            },
            None => {
                let mut done = r;
                done.unit.has_acted = true;
                battle.units.set(id, done);
                battle.phase = TurnPhase::AISelectAttacker;
            },
        }
    }
}

/// Puts a new unit of the computer on the cell `grid`: in full health, and
/// with its action still to come.
pub fn spawn_unit(
    units: &mut Units,
    grid: (i32, i32),
    movement: i32,
    health: i32,
    dmg: i32,
    range: i32,
) -> (id: UnitId)
    ensures
        new_handle(old(units)@, id),
        final(units)@ == joined(
            old(units)@,
            id,
            fresh_unit(Team::AI, grid, movement, health, dmg, range),
        ),
{
    units.spawn(
        UnitRecord {
            unit: Unit { has_acted: false, team: Team::AI },
            grid: GridPosition { x: grid.0, y: grid.1 },
            movement: Movement { distance: movement },
            health: Health { max: health, value: health },
            attack: Attack { dmg, range },
        },
    )
}

/// Of the first `n` of the cells, those that no unit stands on, each of
/// them once, in their order.
pub open spec fn free_among(units: Seq<UnitSlot>, cells: Seq<GridPosition>, n: nat) -> Seq<
    GridPosition,
>
    decreases n,
{
    if n == 0 {
        Seq::empty()
    } else {
        let before = free_among(units, cells, (n - 1) as nat);
        if unit_on(units, cells[n - 1].cell()) || before.contains(cells[n - 1]) {
            before
        } else {
            before.push(cells[n - 1])
        }
    }
}

/// Whether the cells are cells that a unit may come in by: no unit stands
/// on any of them, and none of them is there twice.
pub open spec fn all_free(units: Seq<UnitSlot>, free: Seq<GridPosition>) -> bool {
    &&& forall|k: int| 0 <= k < free.len() ==> !unit_on(units, (#[trigger] free[k]).cell())
    &&& forall|k: int, l: int| 0 <= k < l < free.len() ==> free[k] != free[l]
}

/// The cells that are free among the first `n` are free, and they are
/// among those cells.
pub proof fn lemma_free_among(units: Seq<UnitSlot>, cells: Seq<GridPosition>, n: nat)
    requires
        n <= cells.len(),
    ensures
        all_free(units, free_among(units, cells, n)),
        forall|k: int|
            0 <= k < free_among(units, cells, n).len() ==> cells.contains(
                #[trigger] free_among(units, cells, n)[k],
            ),
    decreases n,
{
    if n > 0 {
        lemma_free_among(units, cells, (n - 1) as nat);
        let before = free_among(units, cells, (n - 1) as nat);
        let free = free_among(units, cells, n);
        assert(cells.contains(cells[n - 1]));
        assert forall|k: int, l: int| 0 <= k < l < free.len() implies free[k] != free[l] by {
            if l == before.len() {
                assert(free[k] == before[k]);
                assert(before.contains(before[k]));
            }
        }
    }
}

/// The cells among `cells` that no unit stands on, each of them once, in
/// their order.
pub fn free_cells(units: &Units, cells: &Vec<GridPosition>) -> (free: Vec<GridPosition>)
    ensures
        free@ == free_among(units@, cells@, cells@.len()),
{
    let mut free: Vec<GridPosition> = Vec::new();
    let mut n: usize = 0;
    while n < cells.len()
        invariant
            n <= cells@.len(),
            free@ == free_among(units@, cells@, n as nat),
        decreases cells@.len() - n,
    {
        let at = cells[n];
        let mut seen = false;
        let mut k: usize = 0;
        while k < free.len()
            invariant
                k <= free@.len(),
                seen == free@.subrange(0, k as int).contains(at),
            decreases free@.len() - k,
        {
            proof {
                let upto = free@.subrange(0, k as int);
                let more = free@.subrange(0, k + 1);
                assert(more[k as int] == free@[k as int]);
                if upto.contains(at) {
                    let j = choose|j: int| 0 <= j < upto.len() && upto[j] == at;
                    assert(more[j] == at);
                }
                if more.contains(at) && free@[k as int] != at {
                    let j = choose|j: int| 0 <= j < more.len() && more[j] == at;
                    assert(upto[j] == at);
                }
            }
            if free[k].x == at.x && free[k].y == at.y {
                seen = true;
            }
            k += 1;
        }
        assert(free@.subrange(0, free@.len() as int) == free@);
        if !seen && !units.occupies(at.x, at.y) {
            free.push(at);
        }
        n += 1;
    }
    free
}

/// One unit of the kind `kind` comes in by the cell with number `pick`
/// among the free cells `free`, which is free no more then. Where there is
/// no such cell, no unit comes.
pub fn come_in(
    units: &mut Units,
    free: &mut Vec<GridPosition>,
    pick: usize,
    kind: UnitJson,
) -> (came: Option<UnitId>)
    ensures
        came is Some <==> pick < old(free)@.len(),
        came is None ==> final(units)@ == old(units)@ && final(free)@ == old(free)@,
        came matches Some(id) ==> {
            &&& new_handle(old(units)@, id)
            &&& final(units)@ == joined(
                old(units)@,
                id,
                fresh_unit(
                    Team::AI,
                    old(free)@[pick as int].cell(),
                    kind.movement,
                    kind.health,
                    kind.damage,
                    kind.range,
                ),
            )
            &&& final(free)@ == old(free)@.remove(pick as int)
        },
{
    if pick < free.len() {
        let at = free.remove(pick);
        Some(spawn_unit(units, (at.x, at.y), kind.movement, kind.health, kind.damage, kind.range))
    } else {
        None
    }
}

/// Whether `r` is a unit of the computer of the kind `kind` that has just
/// come in by one of the cells.
pub open spec fn came_in(r: UnitRecord, kind: UnitJson, cells: Seq<GridPosition>) -> bool {
    exists|j: int|
        0 <= j < cells.len() && r == fresh_unit(
            Team::AI,
            (#[trigger] cells[j]).cell(),
            kind.movement,
            kind.health,
            kind.damage,
            kind.range,
        )
}

/// The number of units that come in with a wave of `count` units: as many
/// as are asked for, but no more than there are free cells.
pub open spec fn wave_size(count: i32, free: nat) -> nat {
    if count <= 0 {
        0
    } else if count <= free {
        count as nat
    } else {
        free
    }
}

/// What holds of the units `made` of a wave that have come so far: each is
/// there and was not there before the wave, is of the kind, and came in by
/// one of the cells that were free, on which no unit stood; no two of them
/// are one unit, and no two stand on one cell; the units that were there
/// are as they were, and no other unit has come.
pub open spec fn wave_so_far(
    before: Seq<UnitSlot>,
    units: Seq<UnitSlot>,
    made: Seq<UnitId>,
    kind: UnitJson,
    free: Seq<GridPosition>,
) -> bool {
    &&& forall|i: int|
        0 <= i < made.len() ==> live(units, #[trigger] made[i]) && !live(before, made[i])
            && came_in(record_of(units, made[i]), kind, free) && !unit_on(
            before,
            record_of(units, made[i]).grid.cell(),
        )
    &&& forall|i: int, j: int|
        0 <= i < j < made.len() ==> made[i] != made[j] && record_of(units, made[i]).grid
            != record_of(units, made[j]).grid
    &&& forall|other: UnitId|
        live(before, other) ==> live(units, other) && record_of(units, other) == record_of(
            before,
            other,
        )
    &&& forall|other: UnitId|
        #![trigger live(units, other)]
        live(units, other) ==> live(before, other) || made.contains(other)
    &&& apart(before) ==> apart(units)
}

/// One more unit of a wave has come in, by one of the cells that were
/// still free.
proof fn lemma_wave_grows(
    before: Seq<UnitSlot>,
    units: Seq<UnitSlot>,
    made: Seq<UnitId>,
    kind: UnitJson,
    free0: Seq<GridPosition>,
    free: Seq<GridPosition>,
    pick: int,
    id: UnitId,
)
    requires
        wave_so_far(before, units, made, kind, free0),
        all_free(before, free0),
        all_free(units, free),
        forall|k: int| 0 <= k < free.len() ==> free0.contains(#[trigger] free[k]),
        0 <= pick < free.len(),
        new_handle(units, id),
    ensures
        wave_so_far(
            before,
            joined(
                units,
                id,
                fresh_unit(
                    Team::AI,
                    free[pick].cell(),
                    kind.movement,
                    kind.health,
                    kind.damage,
                    kind.range,
                ),
            ),
            made.push(id),
            kind,
            free0,
        ),
        all_free(
            joined(
                units,
                id,
                fresh_unit(
                    Team::AI,
                    free[pick].cell(),
                    kind.movement,
                    kind.health,
                    kind.damage,
                    kind.range,
                ),
            ),
            free.remove(pick),
        ),
        forall|k: int|
            0 <= k < free.remove(pick).len() ==> free0.contains(#[trigger] free.remove(pick)[k]),
{
    let record = fresh_unit(
        Team::AI,
        free[pick].cell(),
        kind.movement,
        kind.health,
        kind.damage,
        kind.range,
    );
    let after = joined(units, id, record);
    let grown = made.push(id);
    let left = free.remove(pick);
    lemma_joined(units, id, record);
    assert(record.grid == free[pick]);
    assert(!unit_on(units, free[pick].cell()));
    assert forall|k: int| 0 <= k < left.len() implies left[k] == free[if k < pick {
        k
    } else {
        k + 1
    }] by {}
    assert forall|k: int| 0 <= k < left.len() implies !unit_on(
        after,
        (#[trigger] left[k]).cell(),
    ) by {
        let was = if k < pick {
            k
        } else {
            k + 1
        };
        assert(left[k] == free[was]);
        assert(free[was] != free[pick]);
        assert(!unit_on(units, free[was].cell()));
    }
    assert forall|k: int| 0 <= k < left.len() implies free0.contains(#[trigger] left[k]) by {
        let was = if k < pick {
            k
        } else {
            k + 1
        };
        assert(left[k] == free[was]);
    }
    assert(free0.contains(free[pick]));
    let j0 = choose|j: int| 0 <= j < free0.len() && free0[j] == free[pick];
    assert(came_in(record, kind, free0)) by {
        assert(free0[j0].cell() == free[pick].cell());
    }
    assert(!unit_on(before, free0[j0].cell()));
    assert forall|i: int| 0 <= i < grown.len() implies live(after, #[trigger] grown[i]) && !live(
        before,
        grown[i],
    ) && came_in(record_of(after, grown[i]), kind, free0) && !unit_on(
        before,
        record_of(after, grown[i]).grid.cell(),
    ) by {
        if i < made.len() {
            assert(grown[i] == made[i]);
            assert(live(units, made[i]));
        } else {
            assert(grown[i] == id);
            if live(before, id) {
                assert(live(units, id));
            }
        }
    }
    assert forall|i: int, j: int| 0 <= i < j < grown.len() implies grown[i] != grown[j]
        && record_of(after, grown[i]).grid != record_of(after, grown[j]).grid by {
        assert(grown[i] == made[i]);
        assert(live(units, made[i]));
        if j < made.len() {
            assert(grown[j] == made[j]);
            assert(live(units, made[j]));
        } else {
            assert(grown[j] == id);
            let slot = made[i].index as int;
            assert(stands_on(units, slot, record_of(units, made[i]).grid.cell()));
            assert(unit_on(units, record_of(units, made[i]).grid.cell()));
        }
    }
    assert forall|other: UnitId| #![trigger live(after, other)] live(after, other) implies live(
        before,
        other,
    ) || grown.contains(other) by {
        if other == id {
            assert(grown[made.len() as int] == id);
        } else {
            assert(live(units, other));
            if !live(before, other) {
                let i = choose|i: int| 0 <= i < made.len() && made[i] == other;
                assert(grown[i] == other);
            }
        }
    }
}

/// A wave of the computer's units comes in: `count` units of the kind
/// `kind`, each by one of the cells `spawns.ai_locations` that no unit
/// stands on yet, taken at random, and no two by the same cell. Where the
/// free cells are fewer than the units asked for, as many units come as
/// there are free cells. The handles of the units that came are returned.
pub fn make_units(units: &mut Units, spawns: &Spawners, count: i32, kind: UnitJson) -> (made: Vec<
    UnitId,
>)
    ensures
        made@.len() == wave_size(
            count,
            free_among(old(units)@, spawns.ai_locations@, spawns.ai_locations@.len()).len(),
        ),
        wave_so_far(
            old(units)@,
            final(units)@,
            made@,
            kind,
            free_among(old(units)@, spawns.ai_locations@, spawns.ai_locations@.len()),
        ),
{
    let mut made: Vec<UnitId> = Vec::new();
    let mut free = free_cells(units, &spawns.ai_locations);
    let ghost free0 = free@;
    proof {
        lemma_free_among(units@, spawns.ai_locations@, spawns.ai_locations@.len());
    }
    let mut n: i32 = 0;
    while n < count && free.len() > 0
        invariant
            0 <= n,
            n <= count || n == 0,
            made@.len() == n,
            free@.len() + n == free0.len(),
            wave_so_far(old(units)@, units@, made@, kind, free0),
            all_free(old(units)@, free0),
            all_free(units@, free@),
            forall|k: int| 0 <= k < free@.len() ==> free0.contains(#[trigger] free@[k]),
        decreases free@.len(),
    {
        let pick = random_index(free.len());
        let ghost before = units@;
        let ghost candidates = free@;
        if let Some(id) = come_in(units, &mut free, pick, kind) {
            proof {
                lemma_wave_grows(
                    old(units)@,
                    before,
                    made@,
                    kind,
                    free0,
                    candidates,
                    pick as int,
                    id,
                );
            }
            made.push(id);
            n += 1;
        }
    }
    made
}

} // verus!
