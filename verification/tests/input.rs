use iso80s::cmd::Command;
use iso80s::input::{cursor_index, palette_index, InputState, LineMode};
use iso80s::iso::IsoCoord;

fn at(x: i32, y: i32, layer: i32) -> IsoCoord {
    IsoCoord { x, y, layer }
}

#[test]
fn new_input_state() {
    let state = InputState::new();
    assert_eq!(state.tile_type, 0);
    assert_eq!(state.layer, 0);
    assert_eq!(state.last_pos, at(0, 0, 0));
}

#[test]
fn pick_lies_on_the_chosen_layer() {
    let mut state = InputState::new();
    state.layer = 2;
    assert_eq!(state.pick(3, 4), Some(at(3, 4, 2)));
    assert_eq!(state.pick(0, 0), Some(at(0, 0, 2)));
    assert_eq!(state.pick(-1, 4), None);
    assert_eq!(state.pick(3, -1), None);
}

#[test]
fn line_mode_needs_shift_and_one_axis() {
    let mut state = InputState::new();
    state.last_pos = at(2, 3, 0);
    assert_eq!(state.line_mode(at(6, 3, 0), false), None);
    assert_eq!(
        state.line_mode(at(6, 3, 0), true),
        Some(LineMode { dir_x: 1, dir_y: 0, len: 4 })
    );
    assert_eq!(
        state.line_mode(at(2, 0, 1), true),
        Some(LineMode { dir_x: 0, dir_y: -1, len: 3 })
    );
    assert_eq!(
        state.line_mode(at(2, 3, 0), true),
        Some(LineMode { dir_x: 0, dir_y: 0, len: 0 })
    );
    assert_eq!(state.line_mode(at(3, 4, 0), true), None);
}

#[test]
fn line_mode_over_the_whole_range() {
    let mut state = InputState::new();
    state.last_pos = at(i32::MIN, 0, 0);
    let line = state.line_mode(at(i32::MAX, 0, 0), true);
    assert_eq!(line, Some(LineMode { dir_x: 1, dir_y: 0, len: 4294967295 }));
    assert!(line.unwrap().fits(state.last_pos));
    assert!(!line.unwrap().fits(at(i32::MIN + 1, 0, 0)));
}

#[test]
fn cursor_shows_the_mode() {
    assert_eq!(cursor_index(None), 32);
    assert_eq!(cursor_index(Some(LineMode { dir_x: 1, dir_y: 0, len: 4 })), 33);
}

#[test]
fn palette_counts_tiles_row_by_row() {
    assert_eq!(palette_index(0, 0), 0);
    assert_eq!(palette_index(31, 31), 0);
    assert_eq!(palette_index(32, 0), 1);
    assert_eq!(palette_index(0, 32), 8);
    assert_eq!(palette_index(255, 255), 63);
    assert_eq!(palette_index(100, 70), 19);
}

#[test]
fn release_without_shift_sets_the_picked_cell() {
    let mut state = InputState::new();
    state.tile_type = 5;
    let request = state.release(at(3, 4, 0), false, None);
    assert_eq!(
        request,
        Some(Command::SetTiles { coords: vec![at(3, 4, 0)], tile_type: 5 })
    );
    assert_eq!(state.last_pos, at(3, 4, 0));
}

#[test]
fn release_with_shift_draws_the_line_from_the_last_click() {
    let mut state = InputState::new();
    state.tile_type = 5;
    state.layer = 1;
    state.last_pos = at(2, 3, 1);
    let coord = at(2, 6, 1);
    let line = state.line_mode(coord, true);
    let request = state.release(coord, true, line);
    assert_eq!(
        request,
        Some(Command::SetTiles {
            coords: vec![at(2, 4, 1), at(2, 5, 1), at(2, 6, 1)],
            tile_type: 5
        })
    );
    assert_eq!(state.last_pos, coord);
}

#[test]
fn release_with_shift_towards_smaller_columns() {
    let mut state = InputState::new();
    state.last_pos = at(5, 1, 0);
    let coord = at(3, 1, 0);
    let line = state.line_mode(coord, true);
    let request = state.release(coord, true, line);
    assert_eq!(
        request,
        Some(Command::SetTiles { coords: vec![at(4, 1, 0), at(3, 1, 0)], tile_type: 0 })
    );
}

#[test]
fn release_with_shift_off_axis_requests_nothing() {
    let mut state = InputState::new();
    state.last_pos = at(2, 3, 0);
    let coord = at(4, 5, 0);
    let line = state.line_mode(coord, true);
    assert_eq!(state.release(coord, true, line), None);
    assert_eq!(state.last_pos, coord);
}

#[test]
fn release_with_shift_on_the_last_click_sets_no_cell() {
    let mut state = InputState::new();
    state.last_pos = at(2, 3, 0);
    let coord = at(2, 3, 0);
    let line = state.line_mode(coord, true);
    assert_eq!(
        state.release(coord, true, line),
        Some(Command::SetTiles { coords: vec![], tile_type: 0 })
    );
}

#[test]
fn fits_checks_both_ends() {
    let line = LineMode { dir_x: -1, dir_y: 0, len: 3 };
    assert!(line.fits(at(i32::MIN + 3, 0, 0)));
    assert!(!line.fits(at(i32::MIN + 2, 0, 0)));
    let wide = LineMode { dir_x: 2, dir_y: 0, len: 1 };
    assert!(!wide.fits(at(0, 0, 0)));
    let still = LineMode { dir_x: 0, dir_y: 0, len: usize::MAX };
    assert!(still.fits(at(7, 7, 0)));
}
