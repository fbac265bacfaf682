//! From the picked cell and the mouse button to edit requests.
//!
//! The caller turns the mouse position into a column and a row of the grid
//! and reads the keys; what is requested then is decided here.

use crate::cmd::model::CommandView;
use crate::cmd::Command;
use crate::iso::IsoCoord;
use vstd::prelude::*;

verus! {

/// The sprite that marks the cursor while a single cell is picked.
pub const CURSOR_SINGLE: usize = 32;

/// The sprite that marks the cursor while a line can be drawn.
pub const CURSOR_LINE: usize = 33;

/// The side of one tile of the palette image, in pixels.
pub const PALETTE_TILE: usize = 32;

/// The number of tiles in one row of the palette image.
pub const PALETTE_COLUMNS: usize = 8;

/// A straight run of cells along one axis: the step from cell to cell, and
/// the number of cells.
#[derive(Clone, Copy, Debug, PartialEq, Eq, Structural)]
pub struct LineMode {
    pub dir_x: i32,
    pub dir_y: i32,
    pub len: usize,
}

/// What the user has chosen, and where the last click was.
pub struct InputState {
    /// The tile type that the next `SetTiles` assigns.
    pub tile_type: usize,
    /// The layer on which cells are picked.
    pub layer: i32,
    /// Where the last click was.
    pub last_pos: IsoCoord,
}

/// A difference cut down to a step of at most one cell.
pub open spec fn step_of(d: int) -> int {
    if d < 0 {
        -1
    } else if d > 0 {
        1
    } else {
        0
    }
}

/// The distance that a difference spans.
pub open spec fn span_of(d: int) -> int {
    if d < 0 {
        -d
    } else {
        d
    }
}

/// The line from `last_pos` to `coord`, if the two lie in one column or in
/// one row: it steps towards `coord` and has as many cells as the two are
/// apart. The layers play no part.
pub open spec fn line_between(last_pos: IsoCoord, coord: IsoCoord) -> Option<LineMode> {
    let dx = coord.x - last_pos.x;
    let dy = coord.y - last_pos.y;
    if dx == 0 || dy == 0 {
        Some(
            LineMode {
                dir_x: step_of(dx) as i32,
                dir_y: step_of(dy) as i32,
                len: (span_of(dx) + span_of(dy)) as usize,
            },
        )
    } else {
        None
    }
}

/// Every cell of the line, drawn from `from`, has a column and a row that an
/// `i32` can hold.
pub open spec fn line_fits(from: IsoCoord, line: LineMode) -> bool {
    &&& -1 <= line.dir_x <= 1
    &&& -1 <= line.dir_y <= 1
    &&& i32::MIN <= from.x + line.len * line.dir_x <= i32::MAX
    &&& i32::MIN <= from.y + line.len * line.dir_y <= i32::MAX
}

/// The cells of a line drawn from `from` on `layer`: `from` itself is left
/// out, the cell `len` steps away is the last.
pub open spec fn line_cells(from: IsoCoord, line: LineMode, layer: i32) -> Seq<IsoCoord> {
    Seq::new(
        line.len as nat,
        |k: int|
            IsoCoord {
                x: (from.x + (k + 1) * line.dir_x) as i32,
                y: (from.y + (k + 1) * line.dir_y) as i32,
                layer,
            },
    )
}

/// What a release of the left mouse button over `coord` requests: without
/// shift the one cell; with shift the line, if there is one, drawn from the
/// last click; else nothing.
pub open spec fn request_on_release(
    last_pos: IsoCoord,
    tile_type: usize,
    layer: i32,
    coord: IsoCoord,
    shift_pressed: bool,
    line_mode: Option<LineMode>,
) -> Option<CommandView> {
    if !shift_pressed {
        Some(CommandView::SetTiles { coords: seq![coord], tile_type })
    } else {
        match line_mode {
            Some(line) => Some(
                CommandView::SetTiles { coords: line_cells(last_pos, line, layer), tile_type },
            ),
            None => None,
        }
    }
}

/// The sprite for the cursor: one for a line, another for a single cell.
pub fn cursor_index(line_mode: Option<LineMode>) -> (index: usize)
    ensures
        index == (if line_mode is Some {
            CURSOR_LINE
        } else {
            CURSOR_SINGLE
        }),
{
    if line_mode.is_some() {
        CURSOR_LINE
    } else {
        CURSOR_SINGLE
    }
}

/// The tile type under a click on the palette image, `px` pixels from its
/// left edge and `py` pixels from its top: tiles are counted row by row.
pub fn palette_index(px: usize, py: usize) -> (index: usize)
    ensures
        index == (py / PALETTE_TILE) * PALETTE_COLUMNS + px / PALETTE_TILE,
{
    (py / PALETTE_TILE) * PALETTE_COLUMNS + px / PALETTE_TILE
}

impl LineMode {
    /// Whether every cell of the line, drawn from `from`, has a column and a
    /// row that an `i32` can hold.
    pub fn fits(&self, from: IsoCoord) -> (fits: bool)
        ensures
            fits == line_fits(from, *self),
    {
        if self.dir_x < -1 || self.dir_x > 1 || self.dir_y < -1 || self.dir_y > 1 {
            return false;
        }
        let reach_x = if self.dir_x > 0 {
            (i32::MAX as i64 - from.x as i64) as u64
        } else if self.dir_x < 0 {
            (from.x as i64 - i32::MIN as i64) as u64
        } else {
            u64::MAX
        };
        let reach_y = if self.dir_y > 0 {
            (i32::MAX as i64 - from.y as i64) as u64
        } else if self.dir_y < 0 {
            (from.y as i64 - i32::MIN as i64) as u64
        } else {
            u64::MAX
        };
        assert(self.len * self.dir_x == if self.dir_x > 0 {
            self.len as int
        } else if self.dir_x < 0 {
            -(self.len as int)
        } else {
            0
        }) by (nonlinear_arith)
            requires
                -1 <= self.dir_x <= 1,
        ;
        assert(self.len * self.dir_y == if self.dir_y > 0 {
            self.len as int
        } else if self.dir_y < 0 {
            -(self.len as int)
        } else {
            0
        }) by (nonlinear_arith)
            requires
                -1 <= self.dir_y <= 1,
        ;
        self.len as u64 <= reach_x && self.len as u64 <= reach_y
    }
}

impl Default for InputState {
    fn default() -> (state: InputState)
        ensures
            state.tile_type == 0,
            state.layer == 0,
            state.last_pos == (IsoCoord { x: 0, y: 0, layer: 0 }),
    {
        InputState::new()
    }
}

impl InputState {
    /// The state at the start of a session: tile type 0, layer 0, last click
    /// at the origin.
    pub fn new() -> (state: InputState)
        ensures
            state.tile_type == 0,
            state.layer == 0,
            state.last_pos == (IsoCoord { x: 0, y: 0, layer: 0 }),
    {
        InputState { tile_type: 0, layer: 0, last_pos: IsoCoord { x: 0, y: 0, layer: 0 } }
    }

    /// The cell that is picked at column `x` and row `y`: it lies on the
    /// chosen layer. Left of or below the origin nothing is picked.
    pub fn pick(&self, x: i32, y: i32) -> (coord: Option<IsoCoord>)
        ensures
            coord == (if x < 0 || y < 0 {
                None
            } else {
                Some(IsoCoord { x, y, layer: self.layer })
            }),
    {
        if x < 0 || y < 0 {
            None
        } else {
            Some(IsoCoord { x, y, layer: self.layer })
        }
    }

    /// The line from the last click to `coord`, while shift is held and the
    /// two lie in one column or in one row.
    pub fn line_mode(&self, coord: IsoCoord, shift_pressed: bool) -> (line_mode: Option<LineMode>)
        ensures
            line_mode == (if shift_pressed {
                line_between(self.last_pos, coord)
            } else {
                None
            }),
            line_mode matches Some(line) ==> line_fits(self.last_pos, line),
    {
        if !shift_pressed {
            return None;
        }
        let dx: i64 = coord.x as i64 - self.last_pos.x as i64;
        let dy: i64 = coord.y as i64 - self.last_pos.y as i64;
        if dx != 0 && dy != 0 {
            return None;
        }
        let dir_x: i32 = if dx < 0 {
            -1
        } else if dx > 0 {
            1
        } else {
            0
        };
        let dir_y: i32 = if dy < 0 {
            -1
        } else if dy > 0 {
            1
        } else {
            0
        };
        let span_x: i64 = if dx < 0 {
            -dx
        } else {
            dx
        };
        let span_y: i64 = if dy < 0 {
            -dy
        } else {
            dy
        };
        let len = (span_x + span_y) as usize;
        assert(len * dir_x == dx && len * dir_y == dy) by (nonlinear_arith)
            requires
                dx == 0 || dy == 0,
                len == span_of(dx as int) + span_of(dy as int),
                dir_x == step_of(dx as int),
                dir_y == step_of(dy as int),
        ;
        Some(LineMode { dir_x, dir_y, len })
    }

    /// The cells of `line` drawn from the last click, on the chosen layer.
    fn line_coords(&self, line: LineMode) -> (coords: Vec<IsoCoord>)
        requires
            line_fits(self.last_pos, line),
        ensures
            coords@ == line_cells(self.last_pos, line, self.layer),
    {
        let mut coords: Vec<IsoCoord> = Vec::new();
        let mut brush_x: i64 = self.last_pos.x as i64;
        let mut brush_y: i64 = self.last_pos.y as i64;
        let mut k: usize = 0;
        while k < line.len
            invariant
                k <= line.len,
                line_fits(self.last_pos, line),
                brush_x == self.last_pos.x + k * line.dir_x,
                brush_y == self.last_pos.y + k * line.dir_y,
                coords@ == line_cells(
                    self.last_pos,
                    LineMode { len: k, ..line },
                    self.layer,
                ),
            decreases line.len - k,
        {
            proof {
                let len = line.len as int;
                lemma_step_in_range(self.last_pos.x as int, len, line.dir_x as int, k + 1);
                lemma_step_in_range(self.last_pos.y as int, len, line.dir_y as int, k + 1);
                assert((k + 1) * line.dir_x == k * line.dir_x + line.dir_x) by (nonlinear_arith);
                assert((k + 1) * line.dir_y == k * line.dir_y + line.dir_y) by (nonlinear_arith);
            }
            brush_x = brush_x + line.dir_x as i64;
            brush_y = brush_y + line.dir_y as i64;
            coords.push(IsoCoord { x: brush_x as i32, y: brush_y as i32, layer: self.layer });
            k += 1;
            assert(coords@ =~= line_cells(
                self.last_pos,
                LineMode { len: k, ..line },
                self.layer,
            ));
        }
        coords
    }

    /// A release of the left mouse button over `coord`: says what is
    /// requested, and remembers `coord` as the last click. `line_mode` is the
    /// line that the cursor showed.
    pub fn release(
        &mut self,
        coord: IsoCoord,
        shift_pressed: bool,
        line_mode: Option<LineMode>,
    ) -> (request: Option<Command>)
        requires
            shift_pressed ==> (line_mode matches Some(line) ==> line_fits(
                old(self).last_pos,
                line,
            )),
        ensures
            final(self).tile_type == old(self).tile_type,
            final(self).layer == old(self).layer,
            final(self).last_pos == coord,
            match request {
                Some(command) => Some(command@),
                None => None,
            } == request_on_release(
                old(self).last_pos,
                old(self).tile_type,
                old(self).layer,
                coord,
                shift_pressed,
                line_mode,
            ),
    {
        let request = if !shift_pressed {
            let coords = vec![coord];
            assert(coords@ =~= seq![coord]);
            Some(Command::SetTiles { coords, tile_type: self.tile_type })
        } else {
            match line_mode {
                Some(line) => {
                    let coords = self.line_coords(line);
                    Some(Command::SetTiles { coords, tile_type: self.tile_type })
                },
                None => None,
            }
        };
        self.last_pos = coord;
        request
    }
}

/// A step of a line that fits lies between its ends.
proof fn lemma_step_in_range(from: int, len: int, dir: int, k: int)
    requires
        -1 <= dir <= 1,
        0 <= k <= len,
        i32::MIN <= from <= i32::MAX,
        i32::MIN <= from + len * dir <= i32::MAX,
    ensures
        i32::MIN <= from + k * dir <= i32::MAX,
{
    if dir == 1 {
        assert(k * dir == k && len * dir == len) by (nonlinear_arith)
            requires
                dir == 1,
        ;
    } else if dir == -1 {
        assert(k * dir == -k && len * dir == -len) by (nonlinear_arith)
            requires
                dir == -1,
        ;
    } else {
        assert(k * dir == 0) by (nonlinear_arith)
            requires
                dir == 0,
        ;
    }
}

} // verus!
