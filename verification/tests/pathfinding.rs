use grid_tactics::grid::BlockedTiles;
use grid_tactics::pathfinding::{adjacents, calculate_a_star_path, heuristic};

fn manhattan(a: (i32, i32), b: (i32, i32)) -> usize {
    ((a.0 - b.0).abs() + (a.1 - b.1).abs()) as usize
}

fn assert_is_path(grid: &BlockedTiles, from: (i32, i32), to: (i32, i32), path: &[(i32, i32)]) {
    if path.is_empty() {
        assert_eq!(from, to);
        return;
    }
    assert_eq!(path[0], to);
    let mut at = from;
    for step in path.iter().rev() {
        assert_eq!(manhattan(at, *step), 1, "{:?} is not next to {:?}", step, at);
        assert!(*step == from || grid.get(step.0, step.1) == Some(false));
        at = *step;
    }
    assert_eq!(at, to);
}

#[test]
fn open_grid_path_has_manhattan_length() {
    let grid = BlockedTiles::new(9);
    for ax in 0..9 {
        for ay in 0..9 {
            for bx in 0..9 {
                for by in 0..9 {
                    let path = calculate_a_star_path((ax, ay), (bx, by), &grid).unwrap();
                    assert_eq!(path.len(), manhattan((ax, ay), (bx, by)));
                    assert_is_path(&grid, (ax, ay), (bx, by), &path);
                }
            }
        }
    }
}

#[test]
fn path_from_corner_to_two_two_has_four_steps() {
    let grid = BlockedTiles::new(9);
    let path = calculate_a_star_path((0, 0), (2, 2), &grid).unwrap();
    assert_eq!(path.len(), 4);
    assert_eq!(path[0], (2, 2));
    assert_is_path(&grid, (0, 0), (2, 2), &path);
}

#[test]
fn path_to_own_cell_is_empty() {
    let mut grid = BlockedTiles::new(3);
    grid.insert(1, 1, true);
    assert_eq!(calculate_a_star_path((1, 1), (1, 1), &grid), Some(vec![]));
}

#[test]
fn path_goes_round_a_wall() {
    let mut grid = BlockedTiles::new(5);
    for y in 0..4 {
        grid.insert(2, y, true);
    }
    let path = calculate_a_star_path((0, 0), (4, 0), &grid).unwrap();
    assert_eq!(path.len(), 12);
    assert_is_path(&grid, (0, 0), (4, 0), &path);
    for step in &path {
        assert_eq!(grid.get(step.0, step.1), Some(false));
    }
}

#[test]
fn walled_in_destination_is_unreachable() {
    let mut grid = BlockedTiles::new(5);
    for y in 0..5 {
        grid.insert(2, y, true);
    }
    assert_eq!(calculate_a_star_path((0, 0), (4, 0), &grid), None);
}

#[test]
fn blocked_destination_is_unreachable() {
    let mut grid = BlockedTiles::new(5);
    grid.insert(3, 3, true);
    assert_eq!(calculate_a_star_path((0, 0), (3, 3), &grid), None);
}

#[test]
fn destination_off_the_grid_is_unreachable() {
    let grid = BlockedTiles::new(5);
    assert_eq!(calculate_a_star_path((0, 0), (5, 0), &grid), None);
    assert_eq!(calculate_a_star_path((0, 0), (-1, 0), &grid), None);
}

#[test]
fn blocked_source_may_be_left() {
    let mut grid = BlockedTiles::new(5);
    grid.insert(0, 0, true);
    let path = calculate_a_star_path((0, 0), (0, 2), &grid).unwrap();
    assert_eq!(path, vec![(0, 2), (0, 1)]);
}

#[test]
fn source_off_the_grid_steps_onto_it() {
    let grid = BlockedTiles::new(5);
    let path = calculate_a_star_path((-1, 0), (1, 0), &grid).unwrap();
    assert_eq!(path, vec![(1, 0), (0, 0)]);
    assert_eq!(calculate_a_star_path((-2, 0), (1, 0), &grid), None);
    assert_eq!(calculate_a_star_path((i32::MAX, i32::MIN), (1, 0), &grid), None);
}

#[test]
fn search_is_repeatable() {
    let mut grid = BlockedTiles::new(9);
    grid.insert(4, 4, true);
    grid.insert(4, 5, true);
    grid.insert(3, 4, true);
    let first = calculate_a_star_path((0, 0), (8, 8), &grid);
    for _ in 0..20 {
        assert_eq!(calculate_a_star_path((0, 0), (8, 8), &grid), first);
    }
    assert_eq!(first.unwrap().len(), 16);
}

#[test]
fn ties_go_to_the_lower_coordinates() {
    let grid = BlockedTiles::new(3);
    let path = calculate_a_star_path((0, 0), (1, 1), &grid).unwrap();
    assert_eq!(path, vec![(1, 1), (0, 1)]);
}

#[test]
fn heuristic_is_the_manhattan_distance() {
    assert_eq!(heuristic((0, 0), (3, 4)), 7);
    assert_eq!(heuristic((3, 4), (0, 0)), 7);
    assert_eq!(heuristic((-2, 5), (2, 5)), 4);
    assert_eq!(heuristic((i32::MIN, i32::MIN), (i32::MAX, i32::MAX)), 2 * (u32::MAX as i64));
}

#[test]
fn adjacents_are_up_down_right_left() {
    assert_eq!(adjacents((3, 4)), vec![(3, 5), (3, 3), (4, 4), (2, 4)]);
    assert_eq!(
        adjacents((i32::MAX, i32::MIN)),
        vec![
            (i32::MAX as i64, i32::MIN as i64 + 1),
            (i32::MAX as i64, i32::MIN as i64 - 1),
            (i32::MAX as i64 + 1, i32::MIN as i64),
            (i32::MAX as i64 - 1, i32::MIN as i64)
        ]
    );
}

#[test]
fn grid_without_cells_has_no_paths() {
    let grid = BlockedTiles::new(0);
    assert_eq!(calculate_a_star_path((0, 0), (0, 1), &grid), None);
    assert_eq!(calculate_a_star_path((0, 0), (0, 0), &grid), Some(vec![]));
}
