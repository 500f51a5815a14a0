use grid_tactics::grid::{
    create_level, filled, make_tiles, set_blocked_tiles, BlockedTiles, GridPosition,
};
use grid_tactics::player_units::spawn_unit;
use grid_tactics::units::Units;

#[test]
fn new_grid_has_every_cell_free() {
    let grid = BlockedTiles::new(4);
    assert_eq!(grid.rows_cols(), 4);
    for x in 0..4 {
        for y in 0..4 {
            assert!(grid.contains(x, y));
            assert_eq!(grid.get(x, y), Some(false));
        }
    }
}

#[test]
fn cells_off_the_grid_are_not_found() {
    let grid = BlockedTiles::new(4);
    for (x, y) in [(-1, 0), (0, -1), (4, 0), (0, 4), (4, 4), (i32::MAX, 0), (i32::MIN, i32::MIN)] {
        assert!(!grid.contains(x, y));
        assert_eq!(grid.get(x, y), None);
    }
}

#[test]
fn insert_marks_one_cell_only() {
    let mut grid = BlockedTiles::new(3);
    grid.insert(1, 2, true);
    for x in 0..3 {
        for y in 0..3 {
            assert_eq!(grid.get(x, y), Some((x, y) == (1, 2)));
        }
    }
    grid.insert(1, 2, false);
    assert_eq!(grid.get(1, 2), Some(false));
}

#[test]
fn insert_off_the_grid_changes_nothing() {
    let mut grid = BlockedTiles::new(3);
    grid.insert(3, 0, true);
    grid.insert(-1, 2, true);
    for x in 0..3 {
        for y in 0..3 {
            assert_eq!(grid.get(x, y), Some(false));
        }
    }
    assert_eq!(grid.get(3, 0), None);
}

#[test]
fn grid_of_side_zero_has_no_cell() {
    let mut grid = BlockedTiles::new(0);
    assert!(!grid.contains(0, 0));
    grid.insert(0, 0, true);
    assert_eq!(grid.get(0, 0), None);
}

#[test]
fn filled_repeats_the_value() {
    assert_eq!(filled(3, 7u8), vec![7, 7, 7]);
    assert_eq!(filled(0, true), Vec::<bool>::new());
}

#[test]
fn tiles_come_column_after_column() {
    let tiles = make_tiles(4);
    assert_eq!(tiles.len(), 16);
    for (i, tile) in tiles.iter().enumerate() {
        assert_eq!(*tile, GridPosition { x: (i / 4) as i32, y: (i % 4) as i32 });
    }
    assert!(make_tiles(0).is_empty());
    assert_eq!(make_tiles(1), vec![GridPosition { x: 0, y: 0 }]);
}

#[test]
fn level_has_spawners_on_the_edge() {
    let board = create_level(9, &vec![false; 81]);
    assert!(board.obstacles.is_empty());
    assert_eq!(board.spawners.ai_locations.len(), 32);
    for at in &board.spawners.ai_locations {
        assert!(at.x == 0 || at.y == 0 || at.x == 8 || at.y == 8);
    }
    assert_eq!(board.spawners.ai_locations[0], GridPosition { x: 0, y: 0 });
    assert_eq!(board.spawners.ai_locations[9], GridPosition { x: 1, y: 0 });
    assert_eq!(board.spawners.ai_locations[10], GridPosition { x: 1, y: 8 });
    assert_eq!(board.spawners.ai_locations[31], GridPosition { x: 8, y: 8 });
    assert_eq!(
        board.spawners.player_locations,
        vec![
            GridPosition { x: 4, y: 4 },
            GridPosition { x: 3, y: 4 },
            GridPosition { x: 5, y: 4 }
        ]
    );
}

#[test]
fn level_keeps_edge_and_starting_cells_free() {
    let board = create_level(9, &vec![true; 81]);
    assert_eq!(board.obstacles.len(), 49 - 3);
    for at in &board.obstacles {
        assert!(at.x > 0 && at.y > 0 && at.x < 8 && at.y < 8);
        assert!(!(at.y == 4 && (3..=5).contains(&at.x)));
    }
    assert_eq!(board.obstacles[0], GridPosition { x: 1, y: 1 });
    assert_eq!(*board.obstacles.last().unwrap(), GridPosition { x: 7, y: 7 });
}

#[test]
fn level_follows_the_rolls() {
    let mut rolls = vec![false; 81];
    rolls[9 * 2 + 3] = true;
    rolls[9 * 6 + 1] = true;
    rolls[0] = true;
    rolls[9 * 4 + 4] = true;
    let board = create_level(9, &rolls);
    assert_eq!(
        board.obstacles,
        vec![GridPosition { x: 2, y: 3 }, GridPosition { x: 6, y: 1 }]
    );
}

#[test]
fn level_with_too_few_rolls_treats_the_rest_as_false() {
    let board = create_level(9, &vec![true; 11]);
    assert_eq!(board.obstacles, vec![GridPosition { x: 1, y: 1 }]);
    let board = create_level(9, &Vec::new());
    assert!(board.obstacles.is_empty());
}

#[test]
fn blocked_tiles_are_those_of_units_and_obstacles() {
    let mut units = Units::new();
    spawn_unit(&mut units, (1, 1), 1, 1, 1, 1);
    let gone = spawn_unit(&mut units, (2, 2), 1, 1, 1, 1);
    spawn_unit(&mut units, (7, 7), 1, 1, 1, 1);
    units.remove(gone);
    let obstacles = vec![GridPosition { x: 0, y: 2 }, GridPosition { x: 5, y: 0 }];
    let mut grid = BlockedTiles::new(3);
    grid.insert(0, 0, true);
    set_blocked_tiles(&units, &obstacles, &mut grid);
    assert_eq!(grid.rows_cols(), 3);
    for x in 0..3 {
        for y in 0..3 {
            let expected = (x, y) == (1, 1) || (x, y) == (0, 2);
            assert_eq!(grid.get(x, y), Some(expected), "cell ({}, {})", x, y);
        }
    }
}
