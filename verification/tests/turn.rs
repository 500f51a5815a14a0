use grid_tactics::ai_units::{self, UnitJson};
use grid_tactics::battle::{setup, Battle};
use grid_tactics::grid::{create_level, GridPosition};
use grid_tactics::player_units::{self, Key};
use grid_tactics::states::TurnPhase;
use grid_tactics::turn::{advance, tick, Command};
use grid_tactics::units::{Team, UnitId};

fn acted(battle: &Battle, id: UnitId) -> bool {
    battle.units.get(id).unwrap().unit.has_acted
}

fn flags(battle: &Battle, team: Team) -> Vec<bool> {
    (0..battle.units.len())
        .filter_map(|i| battle.units.id_at(i))
        .map(|id| battle.units.get(id).unwrap())
        .filter(|r| r.unit.team == team)
        .map(|r| r.unit.has_acted)
        .collect()
}

fn team_of(phase: TurnPhase) -> Team {
    match phase {
        TurnPhase::SelectUnit
        | TurnPhase::SelectMove
        | TurnPhase::DoMove
        | TurnPhase::SelectAttacker
        | TurnPhase::SelectTarget => Team::PLAYER,
        _ => Team::AI,
    }
}

#[test]
fn move_of_four_steps_goes_through_its_phases() {
    let mut battle = setup(9);
    let unit = player_units::spawn_unit(&mut battle.units, (0, 0), 4, 10, 5, 1);
    tick(&mut battle, Command::ClickUnit(unit));
    assert_eq!(battle.phase, TurnPhase::SelectMove);
    tick(&mut battle, Command::ClickTile(2, 2));
    assert_eq!(battle.phase, TurnPhase::DoMove);
    assert_eq!(battle.selected_path.tiles.len(), 4);
    let mut phases = vec![TurnPhase::SelectMove, battle.phase];
    while battle.phase == TurnPhase::DoMove {
        tick(&mut battle, Command::Advance(1000));
        if *phases.last().unwrap() != battle.phase {
            phases.push(battle.phase);
        }
    }
    assert_eq!(phases, vec![TurnPhase::SelectMove, TurnPhase::DoMove, TurnPhase::SelectUnit]);
    assert_eq!(battle.units.get(unit).unwrap().grid, GridPosition { x: 2, y: 2 });
    assert!(acted(&battle, unit));
    assert_eq!(battle.blocked.get(0, 0), Some(false));
    assert_eq!(battle.blocked.get(2, 2), Some(true));
}

#[test]
fn computer_unit_moves_to_the_nearest_tile_in_two_steps() {
    let mut battle = setup(9);
    player_units::spawn_unit(&mut battle.units, (0, 0), 4, 10, 5, 1);
    let unit = ai_units::spawn_unit(&mut battle.units, (8, 8), 2, 10, 5, 1);
    battle.phase = TurnPhase::AISelectUnit;
    tick(&mut battle, Command::Advance(1000));
    assert_eq!(battle.phase, TurnPhase::AISelectMove);
    assert_eq!(battle.active.value, Some(unit));
    tick(&mut battle, Command::Advance(1000));
    assert_eq!(battle.phase, TurnPhase::AIDoMove);
    let to = (battle.selected_tile.x, battle.selected_tile.y);
    assert_eq!(to, (6, 8));
    assert_eq!(battle.selected_path.tiles.len(), 2);
    let candidates = [(8, 7), (7, 8), (8, 6), (7, 7), (6, 8)];
    assert!(candidates.contains(&to));
    for c in candidates {
        assert!(to.0 + to.1 <= c.0 + c.1);
    }
    tick(&mut battle, Command::Advance(1000));
    tick(&mut battle, Command::Advance(1000));
    tick(&mut battle, Command::Advance(1000));
    assert_eq!(battle.phase, TurnPhase::AISelectUnit);
    assert_eq!(battle.units.get(unit).unwrap().grid, GridPosition { x: 6, y: 8 });
    assert!(acted(&battle, unit));
}

#[test]
fn attack_that_takes_all_health_removes_the_target() {
    let mut battle = setup(9);
    let attacker = player_units::spawn_unit(&mut battle.units, (4, 4), 4, 10, 5, 1);
    let target = ai_units::spawn_unit(&mut battle.units, (4, 5), 2, 5, 5, 1);
    battle.phase = TurnPhase::SelectAttacker;
    tick(&mut battle, Command::ClickUnit(attacker));
    assert_eq!(battle.phase, TurnPhase::SelectTarget);
    assert_eq!(battle.blocked.get(4, 5), Some(true));
    tick(&mut battle, Command::ClickUnit(target));
    assert_eq!(battle.phase, TurnPhase::SelectAttacker);
    assert_eq!(battle.units.get(target), None);
    assert_eq!(battle.blocked.get(4, 5), Some(false));
    assert!(acted(&battle, attacker));
}

#[test]
fn attacker_out_of_reach_ends_its_turn_without_damage() {
    let mut battle = setup(9);
    let foe = player_units::spawn_unit(&mut battle.units, (2, 2), 4, 10, 5, 1);
    let attacker = ai_units::spawn_unit(&mut battle.units, (4, 3), 2, 10, 5, 1);
    assert_eq!(player_units::chebyshev_distance((4, 3), (2, 2)), 2);
    battle.phase = TurnPhase::AISelectAttacker;
    tick(&mut battle, Command::Advance(1000));
    assert_eq!(battle.phase, TurnPhase::AISelectTarget);
    tick(&mut battle, Command::Advance(1000));
    assert_eq!(battle.phase, TurnPhase::AISelectAttacker);
    assert!(acted(&battle, attacker));
    assert_eq!(battle.units.get(foe).unwrap().health.value, 10);
    assert_eq!(battle.units.get(attacker).unwrap().health.value, 10);
    tick(&mut battle, Command::Advance(1000));
    assert_eq!(battle.phase, TurnPhase::SelectUnit);
    assert!(!acted(&battle, attacker));
}

#[test]
fn tick_works_out_the_blocked_cells_first() {
    let mut battle = setup(9);
    let unit = player_units::spawn_unit(&mut battle.units, (0, 0), 4, 10, 5, 1);
    ai_units::spawn_unit(&mut battle.units, (0, 1), 2, 10, 5, 1);
    battle.obstacles.push(GridPosition { x: 1, y: 0 });
    assert_eq!(battle.blocked.get(0, 1), Some(false));
    tick(&mut battle, Command::ClickUnit(unit));
    assert_eq!(battle.blocked.get(0, 1), Some(true));
    assert_eq!(battle.blocked.get(1, 0), Some(true));
    assert_eq!(battle.blocked.get(0, 0), Some(true));
    tick(&mut battle, Command::ClickTile(1, 1));
    assert_eq!(battle.phase, TurnPhase::SelectMove);
}

#[test]
fn commands_that_do_not_fit_the_phase_change_nothing() {
    let mut battle = setup(9);
    let unit = player_units::spawn_unit(&mut battle.units, (0, 0), 4, 10, 5, 1);
    let foe = ai_units::spawn_unit(&mut battle.units, (5, 5), 2, 10, 5, 1);
    tick(&mut battle, Command::ClickTile(0, 1));
    assert_eq!(battle.phase, TurnPhase::SelectUnit);
    assert_eq!(battle.active.value, None);
    tick(&mut battle, Command::ClickUnit(unit));
    tick(&mut battle, Command::ClickUnit(foe));
    assert_eq!(battle.phase, TurnPhase::SelectMove);
    assert_eq!(battle.selected.value, Some(unit));
    tick(&mut battle, Command::Advance(1000));
    assert_eq!(battle.phase, TurnPhase::SelectMove);
    tick(&mut battle, Command::ClickTile(7, 7));
    assert_eq!(battle.phase, TurnPhase::SelectMove);
    assert_eq!(battle.units.get(unit).unwrap().grid, GridPosition { x: 0, y: 0 });
}

#[test]
fn spawn_wave_phase_waits() {
    let mut battle = setup(9);
    ai_units::spawn_unit(&mut battle.units, (5, 5), 2, 10, 5, 1);
    battle.phase = TurnPhase::AiSpawnWave;
    advance(&mut battle, 1000);
    assert_eq!(battle.phase, TurnPhase::AiSpawnWave);
    tick(&mut battle, Command::Advance(1000));
    assert_eq!(battle.phase, TurnPhase::AiSpawnWave);
}

#[test]
fn round_goes_through_the_four_parts_in_order() {
    let mut battle = setup(9);
    let a = player_units::spawn_unit(&mut battle.units, (4, 4), 2, 20, 5, 1);
    let b = player_units::spawn_unit(&mut battle.units, (3, 4), 2, 20, 5, 1);
    let x = ai_units::spawn_unit(&mut battle.units, (8, 8), 2, 20, 5, 1);
    let y = ai_units::spawn_unit(&mut battle.units, (0, 8), 2, 20, 5, 1);
    let mut parts = vec![battle.phase];
    let mut note = |battle: &Battle, parts: &mut Vec<TurnPhase>| {
        let part = match battle.phase {
            TurnPhase::SelectUnit | TurnPhase::SelectMove | TurnPhase::DoMove => {
                TurnPhase::SelectUnit
            }
            TurnPhase::SelectAttacker | TurnPhase::SelectTarget => TurnPhase::SelectAttacker,
            TurnPhase::AISelectUnit | TurnPhase::AISelectMove | TurnPhase::AIDoMove => {
                TurnPhase::AISelectUnit
            }
            _ => TurnPhase::AISelectAttacker,
        };
        if *parts.last().unwrap() != part {
            parts.push(part);
        }
    };
    for (unit, to) in [(a, (4, 5)), (b, (3, 3))] {
        tick(&mut battle, Command::ClickUnit(unit));
        tick(&mut battle, Command::ClickTile(to.0, to.1));
        assert_eq!(battle.phase, TurnPhase::DoMove);
        while battle.phase == TurnPhase::DoMove {
            tick(&mut battle, Command::Advance(1000));
        }
        note(&battle, &mut parts);
    }
    assert_eq!(flags(&battle, Team::PLAYER), vec![true, true]);
    tick(&mut battle, Command::Advance(1000));
    assert_eq!(battle.phase, TurnPhase::SelectAttacker);
    assert_eq!(flags(&battle, Team::PLAYER), vec![false, false]);
    note(&battle, &mut parts);
    tick(&mut battle, Command::ClickUnit(a));
    tick(&mut battle, Command::Press(Key::Space));
    tick(&mut battle, Command::ClickUnit(b));
    tick(&mut battle, Command::Press(Key::Space));
    assert_eq!(flags(&battle, Team::PLAYER), vec![true, true]);
    tick(&mut battle, Command::Advance(1000));
    assert_eq!(battle.phase, TurnPhase::AISelectUnit);
    assert_eq!(flags(&battle, Team::PLAYER), vec![false, false]);
    note(&battle, &mut parts);
    let mut ticks = 0;
    while battle.phase != TurnPhase::SelectUnit {
        let before = flags(&battle, team_of(battle.phase));
        let phase = battle.phase;
        tick(&mut battle, Command::Advance(1000));
        note(&battle, &mut parts);
        assert_eq!(flags(&battle, Team::PLAYER), vec![false, false]);
        let after = flags(&battle, Team::AI);
        let closing = before.iter().all(|f| *f)
            && (phase == TurnPhase::AISelectUnit || phase == TurnPhase::AISelectAttacker);
        if closing {
            assert_eq!(after, vec![false, false]);
        } else {
            for (was, is) in before.iter().zip(&after) {
                assert!(!*was || *is);
            }
        }
        ticks += 1;
        assert!(ticks < 100);
    }
    assert_eq!(
        parts,
        vec![
            TurnPhase::SelectUnit,
            TurnPhase::SelectAttacker,
            TurnPhase::AISelectUnit,
            TurnPhase::AISelectAttacker,
            TurnPhase::SelectUnit
        ]
    );
    assert_eq!(flags(&battle, Team::AI), vec![false, false]);
    assert_ne!(battle.units.get(x).unwrap().grid, GridPosition { x: 8, y: 8 });
    assert_ne!(battle.units.get(y).unwrap().grid, GridPosition { x: 0, y: 8 });
}

#[test]
fn move_takes_as_many_ticks_as_its_pace_asks_for() {
    let mut battle = setup(9);
    let unit = player_units::spawn_unit(&mut battle.units, (0, 0), 4, 10, 5, 1);
    tick(&mut battle, Command::ClickUnit(unit));
    tick(&mut battle, Command::ClickTile(0, 2));
    assert_eq!(battle.phase, TurnPhase::DoMove);
    let mut ticks = 0;
    let mut last = GridPosition { x: 0, y: 0 };
    while battle.phase == TurnPhase::DoMove {
        tick(&mut battle, Command::Advance(250));
        ticks += 1;
        let now = battle.units.get(unit).unwrap().grid;
        assert!((now.y - last.y).abs() <= 1 && now.x == last.x);
        last = now;
        assert!(battle.travelled < 1000);
    }
    assert_eq!(ticks, 9);
    assert_eq!(last, GridPosition { x: 0, y: 2 });
}

#[test]
fn move_is_not_stopped_by_the_player() {
    let mut battle = setup(9);
    let unit = player_units::spawn_unit(&mut battle.units, (0, 0), 4, 10, 5, 1);
    let other = player_units::spawn_unit(&mut battle.units, (5, 5), 4, 10, 5, 1);
    tick(&mut battle, Command::ClickUnit(unit));
    tick(&mut battle, Command::ClickTile(0, 2));
    tick(&mut battle, Command::Advance(300));
    for command in [
        Command::Press(Key::Escape),
        Command::Press(Key::Space),
        Command::ClickUnit(other),
        Command::ClickTile(3, 3),
    ] {
        tick(&mut battle, command);
        assert_eq!(battle.phase, TurnPhase::DoMove);
        assert_eq!(battle.active.value, Some(unit));
        assert_eq!(battle.selected_path.tiles, vec![(0, 2), (0, 1)]);
        assert_eq!(battle.travelled, 300);
        assert!(!acted(&battle, unit));
    }
    assert_eq!(battle.selected.value, Some(other));
    tick(&mut battle, Command::Advance(0));
    assert_eq!(battle.travelled, 300);
    assert_eq!(battle.phase, TurnPhase::DoMove);
}

#[test]
fn battle_set_up_with_a_wave_has_no_two_units_on_one_cell() {
    let board = create_level(9, &vec![true; 81]);
    let mut battle = setup(9);
    battle.obstacles = board.obstacles;
    player_units::make_units(&mut battle.units, 9);
    let kind = UnitJson { movement: 3, health: 6, damage: 3, range: 1 };
    ai_units::make_units(&mut battle.units, &board.spawners, 12, kind);
    battle.phase = TurnPhase::AISelectUnit;
    let mut ticks = 0;
    while battle.phase != TurnPhase::SelectUnit {
        tick(&mut battle, Command::Advance(500));
        ticks += 1;
        assert!(ticks < 2000);
        let mut cells = Vec::new();
        for i in 0..battle.units.len() {
            if let Some(id) = battle.units.id_at(i) {
                let at = battle.units.get(id).unwrap().grid;
                assert!(!cells.contains(&at), "two units on {:?}", at);
                cells.push(at);
            }
        }
    }
}

#[test]
fn part_of_a_team_without_units_ends_at_once() {
    let mut battle = setup(9);
    tick(&mut battle, Command::Advance(1000));
    assert_eq!(battle.phase, TurnPhase::SelectAttacker);
    tick(&mut battle, Command::Advance(1000));
    assert_eq!(battle.phase, TurnPhase::AISelectUnit);
    tick(&mut battle, Command::Advance(1000));
    assert_eq!(battle.phase, TurnPhase::AISelectAttacker);
    tick(&mut battle, Command::Advance(1000));
    assert_eq!(battle.phase, TurnPhase::SelectUnit);
}

#[test]
fn units_do_not_share_a_cell_after_their_moves() {
    let mut battle = setup(9);
    player_units::spawn_unit(&mut battle.units, (4, 4), 2, 200, 1, 1);
    for at in [(8, 8), (8, 7), (7, 8), (8, 6), (6, 8)] {
        ai_units::spawn_unit(&mut battle.units, at, 3, 200, 1, 1);
    }
    battle.phase = TurnPhase::AISelectUnit;
    let mut ticks = 0;
    while battle.phase != TurnPhase::AISelectAttacker {
        tick(&mut battle, Command::Advance(1000));
        ticks += 1;
        assert!(ticks < 200);
        if battle.phase == TurnPhase::AISelectUnit {
            let mut cells = Vec::new();
            for i in 0..battle.units.len() {
                if let Some(id) = battle.units.id_at(i) {
                    let at = battle.units.get(id).unwrap().grid;
                    assert!(!cells.contains(&at), "two units on {:?}", at);
                    cells.push(at);
                }
            }
        }
    }
}
