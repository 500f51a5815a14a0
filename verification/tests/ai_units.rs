use grid_tactics::ai_units::{
    check_ai_has_moved, check_enemy_has_attacked, closer, come_in, first_target, free_cells,
    make_units, move_active_unit, nearest_opponent, nearest_tile, path_steps, select_attacker,
    select_destination, select_move, select_target, select_unit, spawn_unit, UnitJson,
};
use grid_tactics::battle::{setup, Battle};
use grid_tactics::grid::{create_level, set_blocked_tiles, BlockedTiles, GridPosition, Spawners};
use grid_tactics::player_units;
use grid_tactics::states::TurnPhase;
use grid_tactics::units::{
    AllUnitsActed, Attack, Health, Movement, Team, Unit, UnitId, UnitRecord, Units,
};

fn refresh(battle: &mut Battle) {
    set_blocked_tiles(&battle.units, &battle.obstacles, &mut battle.blocked);
}

fn set_acted(battle: &mut Battle, id: UnitId, acted: bool) {
    let mut r = battle.units.get(id).unwrap();
    r.unit.has_acted = acted;
    battle.units.set(id, r);
}

#[test]
fn path_steps_counts_the_steps() {
    let mut grid = BlockedTiles::new(9);
    assert_eq!(path_steps((0, 0), (2, 2), &grid), Some(4));
    assert_eq!(path_steps((3, 3), (3, 3), &grid), Some(0));
    grid.insert(2, 2, true);
    assert_eq!(path_steps((0, 0), (2, 2), &grid), None);
    assert_eq!(path_steps((2, 2), (0, 0), &grid), Some(4));
}

#[test]
fn fewer_steps_are_closer_and_no_path_is_furthest() {
    assert!(closer(Some(2), Some(3)));
    assert!(!closer(Some(3), Some(3)));
    assert!(!closer(Some(4), Some(3)));
    assert!(closer(Some(100), None));
    assert!(!closer(None, Some(100)));
    assert!(!closer(None, None));
}

#[test]
fn spawned_unit_is_the_computers() {
    let mut units = Units::new();
    let id = spawn_unit(&mut units, (8, 0), 2, 6, 3, 1);
    assert_eq!(
        units.get(id),
        Some(UnitRecord {
            unit: Unit { has_acted: false, team: Team::AI },
            grid: GridPosition { x: 8, y: 0 },
            movement: Movement { distance: 2 },
            health: Health { max: 6, value: 6 },
            attack: Attack { dmg: 3, range: 1 },
        })
    );
}

#[test]
fn wave_comes_in_by_the_spawners() {
    let board = create_level(9, &Vec::new());
    let mut units = Units::new();
    let before = player_units::spawn_unit(&mut units, (4, 4), 1, 20, 7, 1);
    let kind = UnitJson { movement: 2, health: 6, damage: 3, range: 1 };
    let made = make_units(&mut units, &board.spawners, 25, kind);
    assert_eq!(made.len(), 25);
    assert_eq!(units.len(), 26);
    for (i, id) in made.iter().enumerate() {
        let r = units.get(*id).unwrap();
        assert!(r.grid.x == 0 || r.grid.y == 0 || r.grid.x == 8 || r.grid.y == 8);
        assert!(board.spawners.ai_locations.contains(&r.grid));
        assert_eq!(r.unit, Unit { has_acted: false, team: Team::AI });
        assert_eq!(r.movement.distance, 2);
        assert_eq!(r.health, Health { max: 6, value: 6 });
        assert_eq!(r.attack, Attack { dmg: 3, range: 1 });
        assert!(!made[..i].contains(id));
        for earlier in &made[..i] {
            assert_ne!(units.get(*earlier).unwrap().grid, r.grid);
        }
    }
    assert_eq!(units.get(before).unwrap().unit.team, Team::PLAYER);
}

#[test]
fn wave_with_one_spawner_brings_one_unit() {
    let spawns = Spawners {
        ai_locations: vec![GridPosition { x: 7, y: 0 }, GridPosition { x: 7, y: 0 }],
        player_locations: Vec::new(),
    };
    let mut units = Units::new();
    let kind = UnitJson { movement: 2, health: 6, damage: 3, range: 1 };
    let made = make_units(&mut units, &spawns, 3, kind);
    assert_eq!(made.len(), 1);
    assert_eq!(units.get(made[0]).unwrap().grid, GridPosition { x: 7, y: 0 });
    assert_eq!(units.len(), 1);
    assert!(make_units(&mut units, &spawns, 3, kind).is_empty());
    assert_eq!(units.len(), 1);
}

#[test]
fn wave_fills_the_free_cells_and_no_more() {
    let spawns = Spawners {
        ai_locations: vec![
            GridPosition { x: 0, y: 0 },
            GridPosition { x: 0, y: 1 },
            GridPosition { x: 0, y: 2 },
            GridPosition { x: 0, y: 1 },
            GridPosition { x: 0, y: 3 },
        ],
        player_locations: Vec::new(),
    };
    let mut units = Units::new();
    let there = player_units::spawn_unit(&mut units, (0, 2), 1, 20, 7, 1);
    let kind = UnitJson { movement: 2, health: 6, damage: 3, range: 1 };
    let made = make_units(&mut units, &spawns, 10, kind);
    assert_eq!(made.len(), 3);
    let mut cells: Vec<(i32, i32)> =
        made.iter().map(|id| units.get(*id).unwrap().grid).map(|g| (g.x, g.y)).collect();
    cells.sort();
    assert_eq!(cells, vec![(0, 0), (0, 1), (0, 3)]);
    assert_eq!(units.get(there).unwrap().grid, GridPosition { x: 0, y: 2 });
    assert_eq!(units.len(), 4);
}

#[test]
fn wave_of_fewer_units_than_free_cells_brings_them_all() {
    let board = create_level(9, &Vec::new());
    let kind = UnitJson { movement: 2, health: 6, damage: 3, range: 1 };
    for _ in 0..20 {
        let mut units = Units::new();
        let made = make_units(&mut units, &board.spawners, 32, kind);
        assert_eq!(made.len(), 32);
        let mut cells: Vec<(i32, i32)> =
            made.iter().map(|id| units.get(*id).unwrap().grid).map(|g| (g.x, g.y)).collect();
        cells.sort();
        cells.dedup();
        assert_eq!(cells.len(), 32);
        assert!(make_units(&mut units, &board.spawners, 1, kind).is_empty());
    }
}

#[test]
fn free_cells_are_the_unoccupied_cells_once_each() {
    let mut units = Units::new();
    player_units::spawn_unit(&mut units, (1, 1), 1, 20, 7, 1);
    let gone = player_units::spawn_unit(&mut units, (2, 2), 1, 20, 7, 1);
    units.remove(gone);
    let cells = vec![
        GridPosition { x: 3, y: 3 },
        GridPosition { x: 1, y: 1 },
        GridPosition { x: 2, y: 2 },
        GridPosition { x: 3, y: 3 },
        GridPosition { x: 0, y: 0 },
        GridPosition { x: 2, y: 2 },
    ];
    assert_eq!(
        free_cells(&units, &cells),
        vec![
            GridPosition { x: 3, y: 3 },
            GridPosition { x: 2, y: 2 },
            GridPosition { x: 0, y: 0 }
        ]
    );
    assert!(free_cells(&units, &Vec::new()).is_empty());
}

#[test]
fn unit_comes_in_by_the_cell_that_was_picked() {
    let mut units = Units::new();
    let kind = UnitJson { movement: 2, health: 6, damage: 3, range: 1 };
    let mut free = vec![
        GridPosition { x: 0, y: 0 },
        GridPosition { x: 0, y: 1 },
        GridPosition { x: 0, y: 2 },
    ];
    let id = come_in(&mut units, &mut free, 1, kind).unwrap();
    assert_eq!(
        units.get(id),
        Some(UnitRecord {
            unit: Unit { has_acted: false, team: Team::AI },
            grid: GridPosition { x: 0, y: 1 },
            movement: Movement { distance: 2 },
            health: Health { max: 6, value: 6 },
            attack: Attack { dmg: 3, range: 1 },
        })
    );
    assert_eq!(free, vec![GridPosition { x: 0, y: 0 }, GridPosition { x: 0, y: 2 }]);
    assert_eq!(come_in(&mut units, &mut free, 2, kind), None);
    assert_eq!(free.len(), 2);
    assert_eq!(units.len(), 1);
    let next = come_in(&mut units, &mut free, 0, kind).unwrap();
    assert_ne!(next, id);
    assert_eq!(units.get(next).unwrap().grid, GridPosition { x: 0, y: 0 });
    assert_eq!(free, vec![GridPosition { x: 0, y: 2 }]);
}

#[test]
fn wave_without_spawners_or_units_brings_nothing() {
    let kind = UnitJson { movement: 2, health: 6, damage: 3, range: 1 };
    let mut units = Units::new();
    let none = Spawners { ai_locations: Vec::new(), player_locations: Vec::new() };
    assert!(make_units(&mut units, &none, 3, kind).is_empty());
    let one = Spawners {
        ai_locations: vec![GridPosition { x: 7, y: 0 }],
        player_locations: Vec::new(),
    };
    assert!(make_units(&mut units, &one, 0, kind).is_empty());
    assert!(make_units(&mut units, &one, -4, kind).is_empty());
    assert_eq!(units.len(), 0);
}

#[test]
fn computer_selects_its_first_ready_unit() {
    let mut battle = setup(9);
    let p = player_units::spawn_unit(&mut battle.units, (4, 4), 3, 10, 5, 1);
    let a = spawn_unit(&mut battle.units, (8, 8), 2, 10, 5, 1);
    let b = spawn_unit(&mut battle.units, (8, 0), 2, 10, 5, 1);
    select_unit(&mut battle);
    assert_eq!(battle.phase, TurnPhase::SelectUnit);
    assert_eq!(battle.active.value, None);
    battle.phase = TurnPhase::AISelectUnit;
    select_attacker(&mut battle);
    assert_eq!(battle.phase, TurnPhase::AISelectUnit);
    select_unit(&mut battle);
    assert_eq!(battle.phase, TurnPhase::AISelectMove);
    assert_eq!(battle.active.value, Some(a));
    set_acted(&mut battle, a, true);
    battle.phase = TurnPhase::AISelectUnit;
    select_unit(&mut battle);
    assert_eq!(battle.active.value, Some(b));
    battle.phase = TurnPhase::AISelectAttacker;
    set_acted(&mut battle, a, false);
    select_attacker(&mut battle);
    assert_eq!(battle.phase, TurnPhase::AISelectTarget);
    assert_eq!(battle.active.value, Some(a));
    assert!(!battle.units.get(p).unwrap().unit.has_acted);
}

#[test]
fn computer_with_all_units_done_selects_none() {
    let mut battle = setup(9);
    let a = spawn_unit(&mut battle.units, (8, 8), 2, 10, 5, 1);
    set_acted(&mut battle, a, true);
    battle.phase = TurnPhase::AISelectUnit;
    select_unit(&mut battle);
    assert_eq!(battle.phase, TurnPhase::AISelectUnit);
    assert_eq!(battle.active.value, None);
}

#[test]
fn end_of_the_computers_parts_comes_when_all_have_acted() {
    let mut battle = setup(9);
    let p = player_units::spawn_unit(&mut battle.units, (4, 4), 3, 10, 5, 1);
    let a = spawn_unit(&mut battle.units, (8, 8), 2, 10, 5, 1);
    battle.phase = TurnPhase::AISelectUnit;
    assert_eq!(check_ai_has_moved(&mut battle), AllUnitsActed { value: false });
    assert_eq!(check_enemy_has_attacked(&mut battle), AllUnitsActed { value: false });
    set_acted(&mut battle, a, true);
    assert_eq!(check_enemy_has_attacked(&mut battle), AllUnitsActed { value: false });
    assert_eq!(battle.phase, TurnPhase::AISelectUnit);
    assert_eq!(check_ai_has_moved(&mut battle), AllUnitsActed { value: true });
    assert_eq!(battle.phase, TurnPhase::AISelectAttacker);
    assert!(!battle.units.get(a).unwrap().unit.has_acted);
    assert_eq!(check_enemy_has_attacked(&mut battle), AllUnitsActed { value: false });
    set_acted(&mut battle, a, true);
    battle.active.value = Some(a);
    assert_eq!(check_enemy_has_attacked(&mut battle), AllUnitsActed { value: true });
    assert_eq!(battle.phase, TurnPhase::SelectUnit);
    assert_eq!(battle.active.value, None);
    assert!(!battle.units.get(a).unwrap().unit.has_acted);
    assert!(!battle.units.get(p).unwrap().unit.has_acted);
}

#[test]
fn nearest_opponent_is_nearest_by_path() {
    let mut battle = setup(9);
    let far = player_units::spawn_unit(&mut battle.units, (0, 0), 3, 10, 5, 1);
    let near = player_units::spawn_unit(&mut battle.units, (6, 8), 3, 10, 5, 1);
    let me = spawn_unit(&mut battle.units, (8, 8), 2, 10, 5, 1);
    refresh(&mut battle);
    assert_eq!(
        nearest_opponent(&battle.units, &mut battle.blocked, (8, 8), Team::PLAYER),
        Some(near.index)
    );
    assert_eq!(
        nearest_opponent(&battle.units, &mut battle.blocked, (1, 1), Team::PLAYER),
        Some(far.index)
    );
    assert_eq!(
        nearest_opponent(&battle.units, &mut battle.blocked, (0, 0), Team::AI),
        Some(me.index)
    );
    for x in 0..9 {
        for y in 0..9 {
            let expected = [(0, 0), (6, 8), (8, 8)].contains(&(x, y));
            assert_eq!(battle.blocked.get(x, y), Some(expected));
        }
    }
}

#[test]
fn nearest_opponent_of_two_equally_near_is_the_first() {
    let mut battle = setup(9);
    let first = player_units::spawn_unit(&mut battle.units, (4, 2), 3, 10, 5, 1);
    player_units::spawn_unit(&mut battle.units, (2, 4), 3, 10, 5, 1);
    refresh(&mut battle);
    assert_eq!(
        nearest_opponent(&battle.units, &mut battle.blocked, (4, 4), Team::PLAYER),
        Some(first.index)
    );
}

#[test]
fn nearest_opponent_goes_by_the_path_round_obstacles() {
    let mut battle = setup(5);
    let behind_wall = player_units::spawn_unit(&mut battle.units, (2, 0), 3, 10, 5, 1);
    let open = player_units::spawn_unit(&mut battle.units, (0, 3), 3, 10, 5, 1);
    for y in 0..4 {
        battle.obstacles.push(GridPosition { x: 1, y });
    }
    refresh(&mut battle);
    assert_eq!(
        nearest_opponent(&battle.units, &mut battle.blocked, (0, 0), Team::PLAYER),
        Some(open.index)
    );
    assert_eq!(path_steps((0, 0), (2, 0), &battle.blocked), None);
    let _ = behind_wall;
}

#[test]
fn walled_in_opponent_is_further_than_any_other() {
    let mut battle = setup(5);
    let walled = player_units::spawn_unit(&mut battle.units, (4, 4), 3, 10, 5, 1);
    let open = player_units::spawn_unit(&mut battle.units, (0, 4), 3, 10, 5, 1);
    battle.obstacles.push(GridPosition { x: 3, y: 4 });
    battle.obstacles.push(GridPosition { x: 4, y: 3 });
    refresh(&mut battle);
    assert_eq!(
        nearest_opponent(&battle.units, &mut battle.blocked, (0, 0), Team::PLAYER),
        Some(open.index)
    );
    battle.units.remove(open);
    refresh(&mut battle);
    assert_eq!(
        nearest_opponent(&battle.units, &mut battle.blocked, (0, 0), Team::PLAYER),
        Some(walled.index)
    );
}

#[test]
fn no_opponent_is_nearest_where_there_is_none() {
    let mut battle = setup(9);
    spawn_unit(&mut battle.units, (8, 8), 2, 10, 5, 1);
    let gone = player_units::spawn_unit(&mut battle.units, (0, 0), 3, 10, 5, 1);
    battle.units.remove(gone);
    refresh(&mut battle);
    assert_eq!(nearest_opponent(&battle.units, &mut battle.blocked, (8, 8), Team::PLAYER), None);
}

#[test]
fn nearest_tile_is_the_first_of_the_nearest_in_reach() {
    let mut grid = BlockedTiles::new(9);
    grid.insert(8, 8, true);
    grid.insert(0, 0, true);
    assert_eq!(nearest_tile(&grid, (8, 8), 2, (0, 0)), Some((6, 8)));
    assert_eq!(nearest_tile(&grid, (8, 8), 1, (0, 0)), Some((7, 8)));
    assert_eq!(nearest_tile(&grid, (8, 8), 0, (0, 0)), None);
    assert_eq!(nearest_tile(&grid, (8, 8), -3, (0, 0)), None);
    grid.insert(6, 8, true);
    assert_eq!(nearest_tile(&grid, (8, 8), 2, (0, 0)), Some((7, 7)));
}

#[test]
fn nearest_tile_of_a_walled_in_unit_is_none() {
    let mut grid = BlockedTiles::new(9);
    grid.insert(8, 8, true);
    grid.insert(7, 8, true);
    grid.insert(8, 7, true);
    assert_eq!(nearest_tile(&grid, (8, 8), 4, (0, 0)), None);
}

#[test]
fn computer_moves_towards_the_nearest_unit_of_the_player() {
    let mut battle = setup(9);
    let foe = player_units::spawn_unit(&mut battle.units, (0, 0), 3, 10, 5, 1);
    let me = spawn_unit(&mut battle.units, (8, 8), 2, 10, 5, 1);
    refresh(&mut battle);
    let to = select_destination(&mut battle, me).unwrap();
    assert_eq!(to, (6, 8));
    assert_eq!(path_steps((8, 8), to, &battle.blocked), Some(2));
    let best = path_steps((0, 0), to, &battle.blocked).unwrap();
    assert_eq!(best, 14);
    for x in 0..9 {
        for y in 0..9 {
            let in_reach = matches!(path_steps((8, 8), (x, y), &battle.blocked), Some(n) if n <= 2);
            if in_reach && battle.blocked.get(x, y) == Some(false) {
                assert!(path_steps((0, 0), (x, y), &battle.blocked).unwrap() >= best);
            }
        }
    }
    assert_eq!(battle.phase, TurnPhase::SelectUnit);
    assert_eq!(battle.units.get(foe).unwrap().grid, GridPosition { x: 0, y: 0 });
}

#[test]
fn computer_stays_where_its_attack_reaches() {
    let mut battle = setup(9);
    player_units::spawn_unit(&mut battle.units, (4, 4), 3, 10, 5, 1);
    let me = spawn_unit(&mut battle.units, (5, 5), 2, 10, 5, 1);
    let archer = spawn_unit(&mut battle.units, (4, 7), 2, 10, 5, 3);
    refresh(&mut battle);
    assert_eq!(select_destination(&mut battle, me), Some((5, 5)));
    assert_eq!(select_destination(&mut battle, archer), Some((4, 7)));
}

#[test]
fn computer_stays_without_an_opponent_or_a_tile() {
    let mut battle = setup(9);
    let me = spawn_unit(&mut battle.units, (8, 8), 2, 10, 5, 1);
    refresh(&mut battle);
    assert_eq!(select_destination(&mut battle, me), Some((8, 8)));
    player_units::spawn_unit(&mut battle.units, (0, 0), 3, 10, 5, 1);
    battle.obstacles.push(GridPosition { x: 7, y: 8 });
    battle.obstacles.push(GridPosition { x: 8, y: 7 });
    refresh(&mut battle);
    assert_eq!(select_destination(&mut battle, me), Some((8, 8)));
    battle.units.remove(me);
    assert_eq!(select_destination(&mut battle, me), None);
}

#[test]
fn computer_begins_its_move() {
    let mut battle = setup(9);
    player_units::spawn_unit(&mut battle.units, (0, 0), 3, 10, 5, 1);
    let me = spawn_unit(&mut battle.units, (8, 8), 2, 10, 5, 1);
    refresh(&mut battle);
    battle.phase = TurnPhase::AISelectUnit;
    select_unit(&mut battle);
    select_move(&mut battle);
    assert_eq!(battle.phase, TurnPhase::AIDoMove);
    assert_eq!((battle.selected_tile.x, battle.selected_tile.y), (6, 8));
    assert_eq!(battle.selected_path.tiles, vec![(6, 8), (7, 8)]);
    move_active_unit(&mut battle, 1000);
    assert_eq!(battle.units.get(me).unwrap().grid, GridPosition { x: 7, y: 8 });
    move_active_unit(&mut battle, 1000);
    assert_eq!(battle.units.get(me).unwrap().grid, GridPosition { x: 6, y: 8 });
    assert_eq!(battle.phase, TurnPhase::AIDoMove);
    move_active_unit(&mut battle, 1000);
    assert_eq!(battle.phase, TurnPhase::AISelectUnit);
    assert!(battle.units.get(me).unwrap().unit.has_acted);
    assert_eq!(battle.active.value, None);
}

#[test]
fn computer_without_a_live_active_unit_holds_its_phase() {
    let mut battle = setup(9);
    let foe = player_units::spawn_unit(&mut battle.units, (0, 0), 3, 10, 5, 1);
    let me = spawn_unit(&mut battle.units, (8, 8), 2, 10, 5, 1);
    battle.phase = TurnPhase::AISelectMove;
    battle.selected_path.tiles = vec![(1, 1)];
    battle.active.value = Some(me);
    battle.units.remove(me);
    select_move(&mut battle);
    assert_eq!(battle.phase, TurnPhase::AISelectMove);
    assert_eq!(battle.active.value, Some(me));
    assert_eq!((battle.selected_tile.x, battle.selected_tile.y), (0, 0));
    assert_eq!(battle.selected_path.tiles, vec![(1, 1)]);
    battle.active.value = None;
    select_move(&mut battle);
    assert_eq!(battle.phase, TurnPhase::AISelectMove);
    battle.active.value = Some(foe);
    select_move(&mut battle);
    assert_eq!(battle.phase, TurnPhase::AISelectMove);
    assert_eq!(battle.active.value, Some(foe));
    battle.phase = TurnPhase::SelectMove;
    select_move(&mut battle);
    assert_eq!(battle.phase, TurnPhase::SelectMove);
}

#[test]
fn first_target_is_the_first_in_reach() {
    let mut units = Units::new();
    let far = player_units::spawn_unit(&mut units, (0, 0), 3, 10, 5, 1);
    let same = player_units::spawn_unit(&mut units, (4, 4), 3, 10, 5, 1);
    let own = spawn_unit(&mut units, (4, 5), 3, 10, 5, 1);
    let near = player_units::spawn_unit(&mut units, (5, 5), 3, 10, 5, 1);
    let also = player_units::spawn_unit(&mut units, (3, 4), 3, 10, 5, 1);
    assert_eq!(first_target(&units, (4, 4), 1, Team::PLAYER), Some(near));
    assert_eq!(first_target(&units, (4, 4), 4, Team::PLAYER), Some(far));
    assert_eq!(first_target(&units, (4, 4), 0, Team::PLAYER), None);
    assert_eq!(first_target(&units, (4, 4), 1, Team::AI), Some(own));
    units.remove(near);
    assert_eq!(first_target(&units, (4, 4), 1, Team::PLAYER), Some(also));
    let _ = same;
}

#[test]
fn computer_hits_the_first_unit_in_reach() {
    let mut battle = setup(9);
    let far = player_units::spawn_unit(&mut battle.units, (0, 0), 3, 10, 5, 1);
    let near = player_units::spawn_unit(&mut battle.units, (7, 7), 3, 10, 5, 1);
    let me = spawn_unit(&mut battle.units, (8, 8), 2, 10, 4, 1);
    battle.phase = TurnPhase::AISelectAttacker;
    select_attacker(&mut battle);
    select_target(&mut battle);
    assert_eq!(battle.phase, TurnPhase::AISelectAttacker);
    assert_eq!(battle.units.get(near).unwrap().health.value, 6);
    assert_eq!(battle.units.get(far).unwrap().health.value, 10);
    assert!(battle.units.get(me).unwrap().unit.has_acted);
}

#[test]
fn computer_out_of_reach_ends_its_attack_without_damage() {
    let mut battle = setup(9);
    let foe = player_units::spawn_unit(&mut battle.units, (6, 8), 3, 10, 5, 1);
    let me = spawn_unit(&mut battle.units, (8, 8), 2, 10, 4, 1);
    battle.phase = TurnPhase::AISelectAttacker;
    select_attacker(&mut battle);
    assert_eq!(first_target(&battle.units, (8, 8), 1, Team::PLAYER), None);
    select_target(&mut battle);
    assert_eq!(battle.phase, TurnPhase::AISelectAttacker);
    assert_eq!(battle.units.get(foe).unwrap().health.value, 10);
    assert_eq!(battle.units.get(me).unwrap().health.value, 10);
    assert!(battle.units.get(me).unwrap().unit.has_acted);
    assert!(!battle.units.get(foe).unwrap().unit.has_acted);
}

#[test]
fn computer_removes_a_unit_with_no_health_left() {
    let mut battle = setup(9);
    let foe = player_units::spawn_unit(&mut battle.units, (7, 8), 3, 4, 5, 1);
    spawn_unit(&mut battle.units, (8, 8), 2, 10, 4, 1);
    refresh(&mut battle);
    battle.phase = TurnPhase::AISelectAttacker;
    select_attacker(&mut battle);
    select_target(&mut battle);
    assert_eq!(battle.units.get(foe), None);
    assert_eq!(battle.blocked.get(7, 8), Some(false));
}

#[test]
fn computer_without_a_live_attacker_holds_its_phase() {
    let mut battle = setup(9);
    let foe = player_units::spawn_unit(&mut battle.units, (7, 8), 3, 10, 5, 1);
    let me = spawn_unit(&mut battle.units, (8, 8), 2, 10, 4, 1);
    battle.phase = TurnPhase::AISelectTarget;
    battle.active.value = Some(me);
    battle.units.remove(me);
    select_target(&mut battle);
    assert_eq!(battle.phase, TurnPhase::AISelectTarget);
    assert_eq!(battle.active.value, Some(me));
    assert_eq!(battle.units.get(foe).unwrap().health.value, 10);
    battle.active.value = None;
    select_target(&mut battle);
    assert_eq!(battle.phase, TurnPhase::AISelectTarget);
    battle.phase = TurnPhase::SelectTarget;
    select_target(&mut battle);
    assert_eq!(battle.phase, TurnPhase::SelectTarget);
}
