use iso80s::cmd::{apply_commands_system, Command, CommandState, UndoEntry};
use iso80s::iso::{Grid, IsoCoord};

fn at(x: i32, y: i32, layer: i32) -> IsoCoord {
    IsoCoord { x, y, layer }
}

fn set(coords: Vec<IsoCoord>, tile_type: usize) -> Command {
    Command::SetTiles { coords, tile_type }
}

fn snapshot(grid: &Grid) -> Vec<(i32, i32, i32, usize)> {
    let mut cells = Vec::new();
    for i in 0..grid.len() {
        let tile = grid.tile_at(i);
        cells.push((tile.coord.x, tile.coord.y, tile.coord.layer, tile.tile_type));
    }
    cells.sort();
    cells
}

fn entry(transaction: u64, inverse: Command) -> UndoEntry {
    UndoEntry { transaction, inverse }
}

#[test]
fn new_state_has_nothing_to_undo() {
    let state = CommandState::new();
    assert_eq!(state.transaction(), 0);
    assert!(state.undo_stack().is_empty());
    let by_default = CommandState::default();
    assert_eq!(by_default.transaction(), 0);
    assert!(by_default.undo_stack().is_empty());
}

#[test]
fn set_then_undo_restores_every_cell() {
    let mut grid = Grid::new();
    let mut state = CommandState::new();
    grid.set(at(0, 0, 0), 3);
    grid.set(at(1, 0, 0), 4);
    grid.set(at(9, 9, 1), 8);
    let before = snapshot(&grid);

    let coords = vec![at(0, 0, 0), at(2, 0, 0), at(1, 0, 0), at(3, 0, 0)];
    apply_commands_system(&mut grid, &mut state, vec![set(coords, 7)]);
    assert_eq!(
        snapshot(&grid),
        vec![(0, 0, 0, 7), (1, 0, 0, 7), (2, 0, 0, 7), (3, 0, 0, 7), (9, 9, 1, 8)]
    );
    assert_eq!(state.undo_stack().len(), 4);
    assert!(state.undo_stack().iter().all(|e| e.transaction == 0));

    apply_commands_system(&mut grid, &mut state, vec![Command::Undo]);
    assert_eq!(snapshot(&grid), before);
    assert!(state.undo_stack().is_empty());
    assert_eq!(state.transaction(), 2);
}

#[test]
fn set_of_an_empty_cell_records_despawn_and_undo_removes_the_cell() {
    let mut grid = Grid::new();
    let mut state = CommandState::new();
    let c = at(4, 5, 2);
    apply_commands_system(&mut grid, &mut state, vec![set(vec![c], 11)]);
    assert_eq!(grid.get(c), Some(11));
    assert_eq!(state.undo_stack(), &vec![entry(0, Command::Despawn(c))]);

    apply_commands_system(&mut grid, &mut state, vec![Command::Undo]);
    assert_eq!(grid.get(c), None);
    assert_eq!(grid.len(), 0);
    assert!(state.undo_stack().is_empty());
}

#[test]
fn set_of_an_occupied_cell_records_the_old_tile_and_undo_puts_it_back() {
    let mut grid = Grid::new();
    let mut state = CommandState::new();
    let c = at(4, 5, 2);
    grid.set(c, 1);
    apply_commands_system(&mut grid, &mut state, vec![set(vec![c], 2)]);
    assert_eq!(grid.get(c), Some(2));
    assert_eq!(state.undo_stack(), &vec![entry(0, set(vec![c], 1))]);

    apply_commands_system(&mut grid, &mut state, vec![Command::Undo]);
    assert_eq!(grid.get(c), Some(1));
    assert_eq!(grid.len(), 1);
    assert!(state.undo_stack().is_empty());
}

#[test]
fn commands_of_one_tick_run_in_reverse_arrival_order() {
    let mut grid = Grid::new();
    let mut state = CommandState::new();
    let c = at(0, 0, 0);
    apply_commands_system(&mut grid, &mut state, vec![set(vec![c], 1), set(vec![c], 2)]);
    // The later command ran first on the empty cell, the earlier one overwrote it.
    assert_eq!(grid.get(c), Some(1));
    assert_eq!(
        state.undo_stack(),
        &vec![entry(0, Command::Despawn(c)), entry(0, set(vec![c], 2))]
    );
    assert_eq!(state.transaction(), 1);
}

#[test]
fn reverse_order_on_an_occupied_cell_records_the_tile_found_first() {
    let mut grid = Grid::new();
    let mut state = CommandState::new();
    let c = at(0, 0, 0);
    grid.set(c, 9);
    apply_commands_system(&mut grid, &mut state, vec![set(vec![c], 1), set(vec![c], 2)]);
    assert_eq!(grid.get(c), Some(1));
    assert_eq!(
        state.undo_stack(),
        &vec![entry(0, set(vec![c], 9)), entry(0, set(vec![c], 2))]
    );
}

#[test]
fn two_ticks_are_two_transactions_and_undo_reverses_the_later_one() {
    let mut grid = Grid::new();
    let mut state = CommandState::new();
    let a = at(1, 1, 0);
    let b = at(2, 2, 0);
    apply_commands_system(&mut grid, &mut state, vec![set(vec![a], 5)]);
    apply_commands_system(&mut grid, &mut state, vec![set(vec![b], 6)]);
    assert_eq!(
        state.undo_stack(),
        &vec![entry(0, Command::Despawn(a)), entry(1, Command::Despawn(b))]
    );

    apply_commands_system(&mut grid, &mut state, vec![Command::Undo]);
    assert_eq!(grid.get(a), Some(5));
    assert_eq!(grid.get(b), None);
    assert_eq!(state.undo_stack(), &vec![entry(0, Command::Despawn(a))]);

    apply_commands_system(&mut grid, &mut state, vec![Command::Undo]);
    assert_eq!(grid.len(), 0);
    assert!(state.undo_stack().is_empty());
}

#[test]
fn all_sets_of_one_tick_share_one_transaction() {
    let mut grid = Grid::new();
    let mut state = CommandState::new();
    let a = at(1, 1, 0);
    let b = at(2, 2, 0);
    let c = at(3, 3, 0);
    apply_commands_system(
        &mut grid,
        &mut state,
        vec![set(vec![a], 5), Command::Despawn(c), set(vec![b, c], 6)],
    );
    assert_eq!(state.transaction(), 1);
    assert_eq!(
        state.undo_stack(),
        &vec![
            entry(0, Command::Despawn(b)),
            entry(0, Command::Despawn(c)),
            entry(0, Command::Despawn(a)),
        ]
    );
    // `Despawn(c)` ran after the set that created `c`.
    assert_eq!(snapshot(&grid), vec![(1, 1, 0, 5), (2, 2, 0, 6)]);

    apply_commands_system(&mut grid, &mut state, vec![Command::Undo]);
    assert_eq!(grid.len(), 0);
    assert!(state.undo_stack().is_empty());
}

#[test]
fn empty_tick_only_advances_the_transaction() {
    let mut grid = Grid::new();
    let mut state = CommandState::new();
    apply_commands_system(&mut grid, &mut state, vec![set(vec![at(0, 0, 0)], 1)]);
    let cells = snapshot(&grid);
    let history = state.undo_stack().clone();
    apply_commands_system(&mut grid, &mut state, vec![]);
    assert_eq!(snapshot(&grid), cells);
    assert_eq!(state.undo_stack(), &history);
    assert_eq!(state.transaction(), 2);
}

#[test]
fn undo_with_an_empty_history_does_nothing() {
    let mut grid = Grid::new();
    let mut state = CommandState::new();
    grid.set(at(0, 0, 0), 1);
    apply_commands_system(&mut grid, &mut state, vec![Command::Undo]);
    assert_eq!(snapshot(&grid), vec![(0, 0, 0, 1)]);
    assert!(state.undo_stack().is_empty());
    assert_eq!(state.transaction(), 1);
}

#[test]
fn despawn_removes_the_cell_and_records_nothing() {
    let mut grid = Grid::new();
    let mut state = CommandState::new();
    grid.set(at(0, 0, 0), 1);
    grid.set(at(1, 0, 0), 2);
    apply_commands_system(&mut grid, &mut state, vec![Command::Despawn(at(0, 0, 0))]);
    assert_eq!(snapshot(&grid), vec![(1, 0, 0, 2)]);
    assert!(state.undo_stack().is_empty());
}

#[test]
fn despawn_of_an_empty_cell_is_not_an_error() {
    let mut grid = Grid::new();
    let mut state = CommandState::new();
    grid.set(at(1, 0, 0), 2);
    apply_commands_system(&mut grid, &mut state, vec![Command::Despawn(at(0, 0, 0))]);
    assert_eq!(snapshot(&grid), vec![(1, 0, 0, 2)]);
    assert_eq!(state.transaction(), 1);
}

#[test]
fn undo_runs_before_the_commands_that_still_wait() {
    let mut grid = Grid::new();
    let mut state = CommandState::new();
    let c = at(0, 0, 0);
    apply_commands_system(&mut grid, &mut state, vec![set(vec![c], 1)]);
    // `Undo` arrived last, so it runs first and reverses the earlier tick;
    // the set that arrived before it then finds the cell empty.
    apply_commands_system(&mut grid, &mut state, vec![set(vec![c], 2), Command::Undo]);
    assert_eq!(grid.get(c), Some(2));
    assert_eq!(state.undo_stack(), &vec![entry(1, Command::Despawn(c))]);
}

#[test]
fn undo_that_arrived_first_reverses_the_set_of_the_same_tick() {
    let mut grid = Grid::new();
    let mut state = CommandState::new();
    let c = at(0, 0, 0);
    grid.set(c, 4);
    apply_commands_system(&mut grid, &mut state, vec![Command::Undo, set(vec![c], 2)]);
    assert_eq!(grid.get(c), Some(4));
    assert!(state.undo_stack().is_empty());
    assert_eq!(state.transaction(), 1);
}

#[test]
fn two_undos_in_one_tick_reverse_two_transactions() {
    let mut grid = Grid::new();
    let mut state = CommandState::new();
    let a = at(1, 1, 0);
    let b = at(2, 2, 0);
    apply_commands_system(&mut grid, &mut state, vec![set(vec![a], 5)]);
    apply_commands_system(&mut grid, &mut state, vec![set(vec![b], 6)]);
    apply_commands_system(&mut grid, &mut state, vec![Command::Undo, Command::Undo]);
    assert_eq!(grid.len(), 0);
    assert!(state.undo_stack().is_empty());
    assert_eq!(state.transaction(), 3);
}

#[test]
fn inverses_of_a_transaction_are_replayed_oldest_first() {
    // A coordinate named twice records `Despawn` and then a set; replayed in
    // that order, the set comes last and the cell stays.
    let mut grid = Grid::new();
    let mut state = CommandState::new();
    let c = at(0, 0, 0);
    apply_commands_system(&mut grid, &mut state, vec![set(vec![c, c], 5)]);
    assert_eq!(
        state.undo_stack(),
        &vec![entry(0, Command::Despawn(c)), entry(0, set(vec![c], 5))]
    );
    apply_commands_system(&mut grid, &mut state, vec![Command::Undo]);
    assert_eq!(grid.get(c), Some(5));
    assert!(state.undo_stack().is_empty());
}

#[test]
fn a_repeated_coordinate_that_already_holds_the_tile_is_restored() {
    let mut grid = Grid::new();
    let mut state = CommandState::new();
    let c = at(0, 0, 0);
    let d = at(1, 0, 0);
    grid.set(c, 5);
    grid.set(d, 1);
    let before = snapshot(&grid);
    apply_commands_system(&mut grid, &mut state, vec![set(vec![c, d, c], 5)]);
    apply_commands_system(&mut grid, &mut state, vec![Command::Undo]);
    assert_eq!(snapshot(&grid), before);
}

#[test]
fn a_set_without_coordinates_records_nothing() {
    let mut grid = Grid::new();
    let mut state = CommandState::new();
    let a = at(1, 1, 0);
    apply_commands_system(&mut grid, &mut state, vec![set(vec![a], 5)]);
    apply_commands_system(&mut grid, &mut state, vec![set(vec![], 6)]);
    assert_eq!(state.undo_stack(), &vec![entry(0, Command::Despawn(a))]);
    // With nothing recorded in the later tick, `Undo` reverses the earlier one.
    apply_commands_system(&mut grid, &mut state, vec![Command::Undo]);
    assert_eq!(grid.len(), 0);
}

#[test]
fn replayed_inverses_are_not_recorded_again() {
    let mut grid = Grid::new();
    let mut state = CommandState::new();
    let a = at(1, 1, 0);
    grid.set(a, 3);
    apply_commands_system(&mut grid, &mut state, vec![set(vec![a], 5)]);
    apply_commands_system(&mut grid, &mut state, vec![Command::Undo]);
    assert_eq!(grid.get(a), Some(3));
    assert!(state.undo_stack().is_empty());
    apply_commands_system(&mut grid, &mut state, vec![Command::Undo]);
    assert_eq!(grid.get(a), Some(3));
}
