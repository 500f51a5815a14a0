//! The turn cycle: what one tick does to a battle, and what holds of the
//! battle from tick to tick.

use crate::ai_units::{
    ai_move_chosen, ai_target_chosen, ai_unit_chosen, destination, lemma_target_is_foe,
};
use crate::battle::{
    acting, closed_part, having_acted, moved_to, refreshed, stepped, team_of, with_record,
    Battle, BattleView, FULL_STEP,
};
use crate::grid::{blocked_by, set_blocked_tiles};
use crate::pathfinding::{a_star_path, lemma_a_star_path};
use crate::player_units::{keyed, move_chosen, pointed_at, target_chosen, Key};
use crate::route::passable;
use crate::states::TurnPhase;
use crate::units::{
    all_acted, apart, cell_of, flags_kept, live, none_acted, occupied, on_team, ready, record_of,
    stands_on, unit_on, Team, UnitId, UnitSlot,
};
use vstd::prelude::*;

verus! {

/// What the player did since the last tick.
#[derive(Clone, Copy, Debug, PartialEq, Eq, Structural)]
pub enum Command {
    /// Nothing: the battle goes on by itself. A unit that moves comes so
    /// many thousandths of a step further.
    Advance(u32),
    /// The player pointed at a unit.
    ClickUnit(UnitId),
    /// The player pointed at the tile with these coordinates.
    ClickTile(i32, i32),
    /// The player pressed a key.
    Press(Key),
}

/// The battle after it has gone on by itself for one tick, in which a unit
/// that moves comes `advance` thousandths of a step further. While the
/// player chooses a move or a target, it waits.
pub open spec fn advanced(v: BattleView, advance: u32) -> BattleView {
    match v.phase {
        TurnPhase::SelectUnit => closed_part(v, Team::PLAYER, TurnPhase::SelectAttacker),
        TurnPhase::SelectAttacker => closed_part(v, Team::PLAYER, TurnPhase::AISelectUnit),
        TurnPhase::DoMove => stepped(
            v,
            Team::PLAYER,
            TurnPhase::DoMove,
            TurnPhase::SelectUnit,
            advance,
        ),
        TurnPhase::AISelectUnit => if all_acted(v.units, Team::AI) {
            closed_part(v, Team::AI, TurnPhase::AISelectAttacker)
        } else {
            ai_unit_chosen(v, TurnPhase::AISelectUnit, TurnPhase::AISelectMove)
        },
        TurnPhase::AISelectMove => ai_move_chosen(v),
        TurnPhase::AIDoMove => stepped(
            v,
            Team::AI,
            TurnPhase::AIDoMove,
            TurnPhase::AISelectUnit,
            advance,
        ),
        TurnPhase::AISelectAttacker => if all_acted(v.units, Team::AI) {
            closed_part(v, Team::AI, TurnPhase::SelectUnit)
        } else {
            ai_unit_chosen(v, TurnPhase::AISelectAttacker, TurnPhase::AISelectTarget)
        },
        TurnPhase::AISelectTarget => ai_target_chosen(v),
        _ => v,
    }
}

/// The battle after one tick: first the blocked cells are worked out anew,
/// then one thing happens: what the player's command asks for, or, without
/// a command, what the phase brings by itself.
pub open spec fn ticked(v: BattleView, command: Command) -> BattleView {
    let now = refreshed(v);
    match command {
        Command::Advance(advance) => advanced(now, advance),
        Command::ClickUnit(id) => if now.phase == TurnPhase::SelectTarget {
            target_chosen(now, id)
        } else {
            pointed_at(now, id)
        },
        Command::ClickTile(x, y) => move_chosen(now, (x, y)),
        Command::Press(key) => keyed(now, key),
    }
}

/// The battle goes on by itself for one tick, in which a unit that moves
/// comes `by` thousandths of a step further.
pub fn advance(battle: &mut Battle, by: u32)
    ensures
        final(battle)@ == advanced(old(battle)@, by),
{
    match battle.phase {
        TurnPhase::SelectUnit => {
            crate::player_units::check_player_has_moved(battle);
        },
        TurnPhase::SelectAttacker => {
            crate::player_units::check_player_has_attacked(battle);
        },
        TurnPhase::DoMove => {
            crate::player_units::move_active_unit(battle, by);
        },
        TurnPhase::AISelectUnit => {
            if !crate::ai_units::check_ai_has_moved(battle).value {
                crate::ai_units::select_unit(battle);
            }
        },
        TurnPhase::AISelectMove => {
            crate::ai_units::select_move(battle);
        },
        TurnPhase::AIDoMove => {
            crate::ai_units::move_active_unit(battle, by);
        },
        TurnPhase::AISelectAttacker => {
            if !crate::ai_units::check_enemy_has_attacked(battle).value {
                crate::ai_units::select_attacker(battle);
            }
        },
        TurnPhase::AISelectTarget => {
            crate::ai_units::select_target(battle);
        },
        _ => {},
    }
}

/// One tick of the battle.
pub fn tick(battle: &mut Battle, command: Command)
    ensures
        final(battle)@ == ticked(old(battle)@, command),
{
    set_blocked_tiles(&battle.units, &battle.obstacles, &mut battle.blocked);
    match command {
        Command::Advance(by) => {
            advance(battle, by);
        },
        Command::ClickUnit(id) => {
            match battle.phase {
                TurnPhase::SelectTarget => crate::player_units::select_target(battle, id),
                _ => crate::player_units::set_selected_unit(battle, id),
            }
        },
        Command::ClickTile(x, y) => {
            crate::player_units::select_move(battle, x, y);
        },
        Command::Press(key) => {
            crate::player_units::handle_keys(battle, key);
        },
    }
}

/// Whether a unit is being selected in the phase, to move or to attack.
pub open spec fn selecting(phase: TurnPhase) -> bool {
    ||| phase == TurnPhase::SelectUnit
    ||| phase == TurnPhase::SelectAttacker
    ||| phase == TurnPhase::AISelectUnit
    ||| phase == TurnPhase::AISelectAttacker
}

/// Whether the tick ends a part of the turn of the team whose phase it is:
/// a unit is being selected and all units of the team have acted; or the
/// player gives up what is left of that part.
pub open spec fn ends_part(v: BattleView, command: Command) -> bool {
    match command {
        Command::Advance(_) => selecting(v.phase) && all_acted(v.units, team_of(v.phase)),
        Command::Press(Key::Space) => selecting(v.phase) && team_of(v.phase) == Team::PLAYER,
        _ => false,
    }
}

/// The phase after the part of the turn that `phase` belongs to: after the
/// player's moves the player's attacks, then the computer's moves, then the
/// computer's attacks, then the player's moves again.
pub open spec fn next_part(phase: TurnPhase) -> TurnPhase {
    match part_of(phase) {
        TurnPhase::SelectUnit => TurnPhase::SelectAttacker,
        TurnPhase::SelectAttacker => TurnPhase::AISelectUnit,
        TurnPhase::AISelectAttacker => TurnPhase::SelectUnit,
        _ => TurnPhase::AISelectAttacker,
    }
}

/// The first phase of the part of the turn that `phase` belongs to.
pub open spec fn part_of(phase: TurnPhase) -> TurnPhase {
    match phase {
        TurnPhase::SelectUnit | TurnPhase::SelectMove | TurnPhase::DoMove => {
            TurnPhase::SelectUnit
        },
        TurnPhase::SelectAttacker | TurnPhase::SelectTarget => TurnPhase::SelectAttacker,
        TurnPhase::AISelectAttacker | TurnPhase::AISelectTarget => TurnPhase::AISelectAttacker,
        _ => TurnPhase::AISelectUnit,
    }
}

/// A tick stays in the part of the turn it began in, or it goes on to the
/// beginning of the part that follows: the player's moves, the player's
/// attacks, the computer's moves, the computer's attacks, and again.
pub proof fn lemma_parts_follow_in_order(v: BattleView, command: Command)
    ensures
        part_of(ticked(v, command).phase) == part_of(v.phase) || ticked(v, command).phase
            == next_part(v.phase),
{
}

/// Whether the unit in slot `i` has acted.
pub open spec fn has_acted(units: Seq<UnitSlot>, i: int) -> bool {
    occupied(units, i) && units[i].record->0.unit.has_acted
}

/// Whether only units of the team whose phase it is have acted.
pub open spec fn flags_confined(v: BattleView) -> bool {
    forall|i: int| #[trigger] has_acted(v.units, i) ==> on_team(v.units, team_of(v.phase), i)
}

/// When a tick ends a part of a team's turn, no unit of that team has
/// acted after it, and the next part begins.
pub proof fn lemma_part_end_rests_team(v: BattleView, command: Command)
    requires
        ends_part(v, command),
    ensures
        none_acted(ticked(v, command).units, team_of(v.phase)),
        ticked(v, command).phase == next_part(v.phase),
{
    let team = team_of(v.phase);
    let after = ticked(v, command);
    assert forall|i: int| #[trigger] on_team(after.units, team, i) implies ready(
        after.units,
        team,
        i,
    ) by {}
}

/// A tick that does not end a part of a turn takes back no flag: a unit
/// that had acted before the tick, and is there still, has acted after it.
pub proof fn lemma_flags_stay_set(v: BattleView, command: Command)
    requires
        !ends_part(v, command),
    ensures
        flags_kept(v.units, ticked(v, command).units),
{
}

/// From tick to tick, only units of the team whose phase it is have acted.
pub proof fn lemma_flags_stay_confined(v: BattleView, command: Command)
    requires
        flags_confined(v),
        v.units.len() <= usize::MAX,
    ensures
        flags_confined(ticked(v, command)),
{
    let now = refreshed(v);
    let after = ticked(v, command);
    if now.phase == TurnPhase::AISelectTarget {
        if let Some(id) = acting(now, Team::AI) {
            let r = record_of(now.units, id);
            lemma_target_is_foe(now.units, r.grid.cell(), r.attack.range, Team::PLAYER);
        }
    }
    assert(flags_confined(now));
    assert(after.units.len() == v.units.len());
    assert forall|i: int| #[trigger] has_acted(after.units, i) implies on_team(
        after.units,
        team_of(after.phase),
        i,
    ) by {
        assert(occupied(now.units, i));
        if has_acted(now.units, i) {
            assert(on_team(now.units, team_of(now.phase), i));
        }
    }
}

/// What is left of a move: the steps still to be made, in thousandths,
/// less what the unit has come of the next step; nothing once no step is
/// left.
pub open spec fn way_left(v: BattleView) -> int {
    if v.path.len() == 0 {
        0
    } else {
        v.path.len() * FULL_STEP - v.travelled
    }
}

/// A move that has begun is not stopped or changed by anything the player
/// does: in a tick with a command of the player the unit that moves stays
/// where it is, with the way before it that it had.
pub proof fn lemma_move_is_not_stopped(v: BattleView, command: Command)
    requires
        moving(v.phase),
        !(command is Advance),
    ensures
        ticked(v, command).phase == v.phase,
        ticked(v, command).active == v.active,
        ticked(v, command).path == v.path,
        ticked(v, command).travelled == v.travelled,
        ticked(v, command).units == v.units,
{
}

/// A move goes on to its end: while steps are left, a tick in which the
/// unit advances leaves less of the way than there was; and a tick never
/// leaves the unit further than a full step into the next cell.
pub proof fn lemma_move_goes_on(v: BattleView, advance: u32)
    requires
        moving(v.phase),
        0 <= v.travelled < FULL_STEP,
    ensures
        0 <= ticked(v, Command::Advance(advance)).travelled < FULL_STEP,
        acting(v, team_of(v.phase)) is Some && v.path.len() > 0 ==> {
            &&& ticked(v, Command::Advance(advance)).phase == v.phase
            &&& way_left(ticked(v, Command::Advance(advance))) <= way_left(v)
            &&& advance > 0 ==> way_left(ticked(v, Command::Advance(advance))) < way_left(v)
        },
{
}

/// The battle after as many ticks as `advances` is long, in each of which
/// it goes on by itself: a unit that moves advances by `advances[0]`
/// thousandths of a step in the first tick, by `advances[1]` in the second,
/// and so on.
pub open spec fn after_ticks(v: BattleView, advances: Seq<u32>) -> BattleView
    decreases advances.len(),
{
    if advances.len() == 0 {
        v
    } else {
        after_ticks(
            ticked(v, Command::Advance(advances[0])),
            advances.subrange(1, advances.len() as int),
        )
    }
}

/// The cell that the move of the unit `id` ends on: the last of its path,
/// or, with no step to make, the cell it stands on.
pub open spec fn goal_of(v: BattleView, id: UnitId) -> (i32, i32) {
    if v.path.len() > 0 {
        v.path[0]
    } else {
        record_of(v.units, id).grid.cell()
    }
}

/// Whether `w` is the battle at the end of the move that is under way in
/// `v`: the unit that moved stands on the last cell of its path and has
/// acted, all other units are as they were, no step is left, and a unit is
/// to be selected again.
pub open spec fn move_ended(v: BattleView, w: BattleView) -> bool {
    let id = acting(v, team_of(v.phase))->0;
    &&& w.phase == (if v.phase == TurnPhase::DoMove {
        TurnPhase::SelectUnit
    } else {
        TurnPhase::AISelectUnit
    })
    &&& w.active is None
    &&& w.path.len() == 0
    &&& w.units == with_record(
        v.units,
        id,
        having_acted(moved_to(record_of(v.units, id), goal_of(v, id))),
    )
}

/// Whether `w` is the battle somewhere on the way of the move that is
/// under way in `v`: the steps that are left are the last of those that
/// were left, the unit that moves stands on the cell of the step it made
/// last, or where it stood if it has made none, and all other units are as
/// they were. So the unit enters the cells of its path one after the other,
/// from the top of the stack down.
pub open spec fn under_way(v: BattleView, w: BattleView) -> bool {
    let id = acting(v, team_of(v.phase))->0;
    let r = record_of(v.units, id);
    let left = w.path.len() as int;
    &&& w.phase == v.phase
    &&& w.active == v.active
    &&& left <= v.path.len()
    &&& w.path == v.path.subrange(0, left)
    &&& w.units == with_record(
        v.units,
        id,
        moved_to(
            r,
            if left == v.path.len() {
                r.grid.cell()
            } else {
                v.path[left]
            },
        ),
    )
}

/// Whether `w` is the battle one tick further into the move that is under
/// way in `v`, with steps still to make or a step just made: the same unit
/// moves in the same phase towards the same cell, less of the way is left,
/// and the end of the move will be the same.
pub open spec fn move_goes_on(v: BattleView, w: BattleView) -> bool {
    let id = acting(v, team_of(v.phase))->0;
    &&& w.phase == v.phase
    &&& acting(w, team_of(w.phase)) == Some(id)
    &&& 0 <= w.travelled < FULL_STEP
    &&& way_left(w) < way_left(v)
    &&& under_way(v, w)
    &&& with_record(
        w.units,
        id,
        having_acted(moved_to(record_of(w.units, id), goal_of(w, id))),
    ) == with_record(v.units, id, having_acted(moved_to(record_of(v.units, id), goal_of(v, id))))
}

/// One tick of a move in which the unit advances: with no step left the
/// move ends; else it goes on.
pub proof fn lemma_tick_of_move(v: BattleView, advance: u32)
    requires
        moving(v.phase),
        acting(v, team_of(v.phase)) is Some,
        0 <= v.travelled < FULL_STEP,
        advance > 0,
    ensures
        v.path.len() == 0 ==> move_ended(v, ticked(v, Command::Advance(advance))),
        v.path.len() > 0 ==> move_goes_on(v, ticked(v, Command::Advance(advance))),
{
    let id = acting(v, team_of(v.phase))->0;
    let r = record_of(v.units, id);
    let w = ticked(v, Command::Advance(advance));
    let goal = goal_of(v, id);
    if v.path.len() == 0 {
        assert(w.units =~= with_record(v.units, id, having_acted(moved_to(r, goal))));
    } else {
        assert(goal_of(w, id) == goal);
        assert(w.path =~= v.path.subrange(0, w.path.len() as int));
        assert(w.units =~= with_record(
            v.units,
            id,
            moved_to(
                r,
                if w.path.len() == v.path.len() {
                    r.grid.cell()
                } else {
                    v.path[w.path.len() as int]
                },
            ),
        ));
        assert(with_record(
            w.units,
            id,
            having_acted(moved_to(record_of(w.units, id), goal)),
        ) =~= with_record(v.units, id, having_acted(moved_to(r, goal))));
    }
}

/// The ticks after the first begin where the first tick ends.
pub proof fn lemma_ticks_follow(v: BattleView, advances: Seq<u32>, j: int)
    requires
        0 <= j < advances.len(),
    ensures
        after_ticks(v, advances.subrange(0, j + 1)) == after_ticks(
            ticked(v, Command::Advance(advances[0])),
            advances.subrange(1, advances.len() as int).subrange(0, j),
        ),
{
    let head = advances.subrange(0, j + 1);
    assert(head[0] == advances[0]);
    assert(head.subrange(1, head.len() as int) =~= advances.subrange(
        1,
        advances.len() as int,
    ).subrange(0, j));
}

/// A move is on its way where it begins.
pub proof fn lemma_way_begins(v: BattleView)
    requires
        acting(v, team_of(v.phase)) is Some,
    ensures
        under_way(v, v),
{
    let id = acting(v, team_of(v.phase))->0;
    assert(v.path =~= v.path.subrange(0, v.path.len() as int));
    assert(v.units =~= with_record(
        v.units,
        id,
        moved_to(record_of(v.units, id), record_of(v.units, id).grid.cell()),
    ));
}

/// What is on the way of a move that goes on is on the way of the move.
pub proof fn lemma_way_goes_on(v: BattleView, next: BattleView, w: BattleView)
    requires
        acting(v, team_of(v.phase)) is Some,
        move_goes_on(v, next),
        under_way(next, w),
    ensures
        under_way(v, w),
{
    let id = acting(v, team_of(v.phase))->0;
    let r = record_of(v.units, id);
    let left = w.path.len() as int;
    assert(w.path =~= v.path.subrange(0, left));
    assert(w.units =~= with_record(
        v.units,
        id,
        moved_to(
            r,
            if left == v.path.len() {
                r.grid.cell()
            } else {
                v.path[left]
            },
        ),
    ));
}

/// A move ends. Let the ticks go on, the unit advancing in each of them,
/// for more ticks than there are thousandths of a step left of the way:
/// then after `k` of them, `k` being no more than that and one, the move
/// has ended with the unit on the last cell of its path, and until then
/// the unit was on its way, cell after cell.
pub proof fn lemma_move_ends(v: BattleView, advances: Seq<u32>) -> (k: int)
    requires
        moving(v.phase),
        acting(v, team_of(v.phase)) is Some,
        0 <= v.travelled < FULL_STEP,
        forall|i: int| 0 <= i < advances.len() ==> advances[i] > 0,
        advances.len() > way_left(v),
    ensures
        0 < k <= way_left(v) + 1,
        forall|j: int|
            0 <= j < k ==> under_way(v, #[trigger] after_ticks(v, advances.subrange(0, j))),
        move_ended(v, after_ticks(v, advances.subrange(0, k))),
    decreases way_left(v),
{
    let next = ticked(v, Command::Advance(advances[0]));
    let rest = advances.subrange(1, advances.len() as int);
    lemma_tick_of_move(v, advances[0]);
    lemma_ticks_follow(v, advances, 0);
    assert(rest.subrange(0, 0).len() == 0);
    assert(advances.subrange(0, 0).len() == 0);
    lemma_way_begins(v);
    if v.path.len() == 0 {
        1
    } else {
        let k = lemma_move_ends(next, rest);
        assert forall|j: int| 0 <= j < k + 1 implies under_way(
            v,
            #[trigger] after_ticks(v, advances.subrange(0, j)),
        ) by {
            if j > 0 {
                lemma_ticks_follow(v, advances, j - 1);
                lemma_way_goes_on(v, next, after_ticks(next, rest.subrange(0, j - 1)));
            }
        }
        lemma_ticks_follow(v, advances, k);
        k + 1
    }
}

/// Whether no unit deals less than no damage.
pub open spec fn damage_harms(v: BattleView) -> bool {
    forall|i: int|
        #![trigger occupied(v.units, i)]
        occupied(v.units, i) ==> v.units[i].record->0.attack.dmg >= 0
}

/// Where no unit deals less than no damage, no tick gives a unit more
/// health than it had.
pub proof fn lemma_health_never_rises(v: BattleView, command: Command, id: UnitId)
    requires
        damage_harms(v),
        v.units.len() <= usize::MAX,
        live(v.units, id),
        live(ticked(v, command).units, id),
    ensures
        record_of(ticked(v, command).units, id).health.value <= record_of(v.units, id).health.value,
        record_of(ticked(v, command).units, id).health.max == record_of(v.units, id).health.max,
{
    assert(occupied(v.units, id.index as int));
    let now = refreshed(v);
    if let Some(attacker) = now.active {
        if live(now.units, attacker) {
            assert(occupied(v.units, attacker.index as int));
            let r = record_of(now.units, attacker);
            lemma_target_is_foe(now.units, r.grid.cell(), r.attack.range, Team::PLAYER);
        }
    }
}

/// Whether the phase is one in which a unit moves along its path.
pub open spec fn moving(phase: TurnPhase) -> bool {
    phase == TurnPhase::DoMove || phase == TurnPhase::AIDoMove
}

/// Whether no unit but the active one stands on a cell of the path that
/// is still to be gone.
pub open spec fn path_clear(v: BattleView) -> bool {
    forall|k: int, i: int|
        #![trigger v.path[k], occupied(v.units, i)]
        0 <= k < v.path.len() && occupied(v.units, i) && !(v.active matches Some(id) && id.index
            == i) ==> cell_of(v.units, i) != v.path[k]
}

/// Whether the units stand so that they do not meet: no two of them on
/// one cell, and during a move none on the way of the unit that moves.
pub open spec fn settled(v: BattleView) -> bool {
    apart(v.units) && (moving(v.phase) ==> path_clear(v))
}

/// While no unit moves, units that stand apart do not meet. Such are the
/// units of a registry that was empty before the player's three units and
/// the waves of the computer's units came in.
pub proof fn lemma_apart_is_settled(v: BattleView)
    requires
        apart(v.units),
        !moving(v.phase),
    ensures
        settled(v),
{
}

/// The path of a unit that stands apart from all others is clear of them
/// on a grid on which every unit blocks its cell.
pub proof fn lemma_route_is_clear(v: BattleView, id: UnitId, to: (i32, i32), path: Seq<(i32, i32)>)
    requires
        0 <= v.side <= 0xFFFF,
        apart(v.units),
        live(v.units, id),
        v.blocked == blocked_by(v.units, v.obstacles, v.side),
        a_star_path(v.blocked, v.side, record_of(v.units, id).grid.cell(), to) == Some(path),
    ensures
        forall|k: int, i: int|
            #![trigger path[k], occupied(v.units, i)]
            0 <= k < path.len() && occupied(v.units, i) && i != id.index ==> cell_of(v.units, i)
                != path[k],
{
    let from = record_of(v.units, id).grid.cell();
    lemma_a_star_path(v.blocked, v.side, from, to);
    assert forall|k: int, i: int|
        #![trigger path[k], occupied(v.units, i)]
        0 <= k < path.len() && occupied(v.units, i) && i != id.index implies cell_of(v.units, i)
        != path[k] by {
        let c = cell_of(v.units, i);
        if c == path[k] {
            assert(passable(v.blocked, from, path[k]));
            assert(stands_on(v.units, i, c));
            assert(unit_on(v.units, c));
            assert(occupied(v.units, id.index as int));
        }
    }
}

/// From tick to tick the units do not meet: where no two of them stand on
/// one cell, and during a move none stands on the way of the unit that
/// moves, the same holds after the tick.
pub proof fn lemma_units_stay_apart(v: BattleView, command: Command)
    requires
        settled(v),
        0 <= v.side <= 0xFFFF,
        v.units.len() <= usize::MAX,
    ensures
        settled(ticked(v, command)),
{
    let now = refreshed(v);
    let after = ticked(v, command);
    if let Some(id) = now.active {
        if live(now.units, id) {
            let r = record_of(now.units, id);
            lemma_target_is_foe(now.units, r.grid.cell(), r.attack.range, Team::PLAYER);
            match command {
                Command::ClickTile(x, y) => {
                    if let Some(path) = a_star_path(now.blocked, now.side, r.grid.cell(), (x, y)) {
                        lemma_route_is_clear(now, id, (x, y), path);
                    }
                },
                Command::Advance(_) => {
                    let to = destination(now, id);
                    if let Some(path) = a_star_path(now.blocked, now.side, r.grid.cell(), to) {
                        lemma_route_is_clear(now, id, to, path);
                    }
                },
                _ => {},
            }
        }
    }
    assert(after.units.len() == v.units.len());
    assert forall|i: int, j: int|
        #![trigger occupied(after.units, i), occupied(after.units, j)]
        occupied(after.units, i) && occupied(after.units, j) && i != j implies cell_of(
        after.units,
        i,
    ) != cell_of(after.units, j) by {
        assert(occupied(v.units, i) && occupied(v.units, j));
    }
    if moving(after.phase) {
        assert forall|k: int, i: int|
            #![trigger after.path[k], occupied(after.units, i)]
            0 <= k < after.path.len() && occupied(after.units, i) && !(after.active matches Some(id)
                && id.index == i) implies cell_of(after.units, i) != after.path[k] by {
            assert(occupied(v.units, i));
            if moving(v.phase) {
                assert(after.path[k] == v.path[k]);
            }
        }
    }
}

} // verus!
