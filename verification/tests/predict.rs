use iso80s::cmd::predict::{rank, training_system, BaseKey, PredictState};
use iso80s::cmd::Command;
use iso80s::iso::IsoCoord;

fn at(x: i32, y: i32, layer: i32) -> IsoCoord {
    IsoCoord { x, y, layer }
}

fn set_on(layer: i32, tile_type: usize) -> Command {
    Command::SetTiles { coords: vec![at(0, 0, layer)], tile_type }
}

fn key(layer_change: i64, tile_type: usize) -> BaseKey {
    BaseKey { layer_change, tile_type }
}

#[test]
fn new_model_knows_nothing() {
    let state = PredictState::new();
    assert_eq!(state.history(), vec![]);
    assert_eq!(state.last_layer(), 0);
    assert_eq!(state.sample_count(), 0);
    assert_eq!(state.predict((key(0, 1), key(0, 1))), None);
    assert_eq!(state.count((key(0, 1), key(0, 1)), key(0, 2)), 0);
    assert!(state.predictions().is_empty());
    let by_default = PredictState::default();
    assert_eq!(by_default.history(), vec![]);
    assert_eq!(by_default.sample_count(), 0);
}

#[test]
fn a_run_of_three_that_occurs_twice_is_counted_twice() {
    let mut state = PredictState::new();
    let batch: Vec<Command> = [1, 1, 2, 1, 1, 2].iter().map(|t| set_on(0, *t)).collect();
    training_system(&mut state, &batch);
    assert_eq!(state.count((key(0, 1), key(0, 1)), key(0, 2)), 2);
    assert_eq!(state.count((key(0, 1), key(0, 2)), key(0, 1)), 1);
    assert_eq!(state.count((key(0, 2), key(0, 1)), key(0, 1)), 1);
    assert_eq!(state.count((key(0, 1), key(0, 1)), key(0, 1)), 0);
    assert_eq!(state.sample_count(), 4);
    assert_eq!(state.predict((key(0, 1), key(0, 1))), Some(vec![(key(0, 2), 2)]));
}

#[test]
fn counts_do_not_depend_on_how_the_edits_are_spread_over_ticks() {
    let mut state = PredictState::new();
    for t in [1, 1, 2, 1, 1, 2] {
        training_system(&mut state, &vec![set_on(0, t)]);
    }
    assert_eq!(state.count((key(0, 1), key(0, 1)), key(0, 2)), 2);
    assert_eq!(state.count((key(0, 1), key(0, 2)), key(0, 1)), 1);
    assert_eq!(state.count((key(0, 2), key(0, 1)), key(0, 1)), 1);
    assert_eq!(state.sample_count(), 4);
}

#[test]
fn first_run_of_three_is_counted_once() {
    let mut state = PredictState::new();
    training_system(&mut state, &vec![set_on(0, 1), set_on(0, 1), set_on(0, 2)]);
    assert_eq!(state.count((key(0, 1), key(0, 1)), key(0, 2)), 1);
    assert_eq!(state.sample_count(), 1);
}

#[test]
fn layer_change_is_the_difference_to_the_previous_set() {
    let mut state = PredictState::new();
    training_system(&mut state, &vec![set_on(3, 7)]);
    assert_eq!(state.history(), vec![key(3, 7)]);
    assert_eq!(state.last_layer(), 3);
    training_system(&mut state, &vec![set_on(1, 8)]);
    assert_eq!(state.history(), vec![key(3, 7), key(-2, 8)]);
    assert_eq!(state.last_layer(), 1);
}

#[test]
fn layer_change_spans_the_whole_range_of_layers() {
    let mut state = PredictState::new();
    training_system(&mut state, &vec![set_on(i32::MIN, 1), set_on(i32::MAX, 2)]);
    assert_eq!(
        state.history(),
        vec![key(-2147483648, 1), key(4294967295, 2)]
    );
}

#[test]
fn a_set_without_coordinates_counts_as_layer_one() {
    let mut state = PredictState::new();
    training_system(&mut state, &vec![Command::SetTiles { coords: vec![], tile_type: 4 }]);
    assert_eq!(state.history(), vec![key(1, 4)]);
    assert_eq!(state.last_layer(), 1);
}

#[test]
fn the_layer_of_a_set_is_that_of_its_first_coordinate() {
    let mut state = PredictState::new();
    let command = Command::SetTiles { coords: vec![at(0, 0, 2), at(1, 0, 5)], tile_type: 4 };
    training_system(&mut state, &vec![command]);
    assert_eq!(state.history(), vec![key(2, 4)]);
    assert_eq!(state.last_layer(), 2);
}

#[test]
fn other_commands_leave_no_trace() {
    let mut state = PredictState::new();
    training_system(&mut state, &vec![Command::Undo, Command::Despawn(at(0, 0, 3))]);
    assert_eq!(state.history(), vec![]);
    assert_eq!(state.last_layer(), 0);
    assert_eq!(state.sample_count(), 0);
}

#[test]
fn history_is_cut_back_to_the_last_two_edits() {
    let mut state = PredictState::new();
    let batch: Vec<Command> = [1, 2, 3, 4, 5].iter().map(|t| set_on(0, *t)).collect();
    training_system(&mut state, &batch);
    assert_eq!(state.history(), vec![key(0, 4), key(0, 5)]);
    assert_eq!(state.sample_count(), 3);
    assert_eq!(state.count((key(0, 1), key(0, 2)), key(0, 3)), 1);
    assert_eq!(state.count((key(0, 2), key(0, 3)), key(0, 4)), 1);
    assert_eq!(state.count((key(0, 3), key(0, 4)), key(0, 5)), 1);
}

#[test]
fn training_reads_the_batch_in_arrival_order() {
    let mut state = PredictState::new();
    training_system(&mut state, &vec![set_on(0, 1), set_on(0, 2), set_on(0, 3)]);
    assert_eq!(state.count((key(0, 1), key(0, 2)), key(0, 3)), 1);
    assert_eq!(state.count((key(0, 3), key(0, 2)), key(0, 1)), 0);
}

#[test]
fn empty_batch_changes_nothing() {
    let mut state = PredictState::new();
    training_system(&mut state, &vec![set_on(0, 1), set_on(0, 1), set_on(0, 2)]);
    let history = state.history();
    training_system(&mut state, &vec![]);
    assert_eq!(state.history(), history);
    assert_eq!(state.last_layer(), 0);
    assert_eq!(state.sample_count(), 1);
    assert_eq!(state.count((key(0, 1), key(0, 1)), key(0, 2)), 1);
}

#[test]
fn predict_ranks_by_descending_count() {
    let mut state = PredictState::new();
    // After (1, 1): 2 three times, 3 twice, 4 once.
    let tiles = [1, 1, 2, 1, 1, 3, 1, 1, 2, 1, 1, 4, 1, 1, 3, 1, 1, 2];
    let batch: Vec<Command> = tiles.iter().map(|t| set_on(0, *t)).collect();
    training_system(&mut state, &batch);
    assert_eq!(
        state.predict((key(0, 1), key(0, 1))),
        Some(vec![(key(0, 2), 3), (key(0, 3), 2), (key(0, 4), 1)])
    );
    assert_eq!(state.predict((key(0, 9), key(0, 9))), None);
}

#[test]
fn predictions_follow_the_current_context() {
    let mut state = PredictState::new();
    let tiles = [1, 1, 2, 1, 1];
    let batch: Vec<Command> = tiles.iter().map(|t| set_on(0, *t)).collect();
    training_system(&mut state, &batch);
    assert_eq!(state.history(), vec![key(0, 1), key(0, 1)]);
    assert_eq!(
        state.predictions(),
        vec![((key(0, 1), key(0, 1)), vec![(key(0, 2), 1)])]
    );
    training_system(&mut state, &vec![set_on(0, 9)]);
    assert_eq!(state.history(), vec![key(0, 1), key(0, 9)]);
    assert!(state.predictions().is_empty());
}

#[test]
fn rank_puts_larger_counts_first() {
    let ranked = rank(vec![(key(0, 1), 1), (key(0, 2), 3), (key(1, 3), 2)]);
    assert_eq!(ranked, vec![(key(0, 2), 3), (key(1, 3), 2), (key(0, 1), 1)]);
    assert_eq!(rank(vec![]), vec![]);
}

#[test]
fn rank_keeps_every_entry() {
    let mut ranked = rank(vec![(key(0, 1), 2), (key(0, 2), 2), (key(0, 3), 5), (key(0, 4), 2)]);
    assert_eq!(ranked[0], (key(0, 3), 5));
    ranked.sort_by_key(|entry| entry.0.tile_type);
    assert_eq!(
        ranked,
        vec![(key(0, 1), 2), (key(0, 2), 2), (key(0, 3), 5), (key(0, 4), 2)]
    );
}

#[test]
fn contexts_differ_by_layer_change() {
    let mut state = PredictState::new();
    training_system(&mut state, &vec![set_on(0, 1), set_on(1, 1), set_on(1, 2)]);
    assert_eq!(state.count((key(0, 1), key(1, 1)), key(0, 2)), 1);
    assert_eq!(state.count((key(0, 1), key(0, 1)), key(0, 2)), 0);
}
