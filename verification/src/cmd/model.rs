//! The command engine as a mathematical state machine.
//!
//! A state is the grid, the undo history and the transaction counter. The
//! functions here say what one command, one batch and one tick do to it.

use crate::iso::IsoCoord;
use vstd::prelude::*;

verus! {

/// A command as a mathematical value.
pub enum CommandView {
    SetTiles { coords: Seq<IsoCoord>, tile_type: usize },
    Despawn(IsoCoord),
    Undo,
}

/// One entry of the undo history: the transaction that recorded it and the
/// command that reverses what was done.
pub struct UndoEntryView {
    pub transaction: nat,
    pub inverse: CommandView,
}

/// The state that the command engine works on.
pub struct EngineState {
    pub grid: Map<IsoCoord, usize>,
    pub history: Seq<UndoEntryView>,
    pub transaction: nat,
}

/// The only commands that the history records: a `Set` of one coordinate, or a
/// `Despawn`.
pub open spec fn is_inverse(command: CommandView) -> bool {
    match command {
        CommandView::SetTiles { coords, tile_type } => coords.len() == 1,
        CommandView::Despawn(coord) => true,
        CommandView::Undo => false,
    }
}

/// Every entry is an inverse recorded in a transaction up to `transaction`.
pub open spec fn history_within(history: Seq<UndoEntryView>, transaction: nat) -> bool {
    forall|i: int|
        0 <= i < history.len() ==> (#[trigger] history[i]).transaction <= transaction
            && is_inverse(history[i].inverse)
}

/// Every entry is an inverse recorded in a transaction before `transaction`.
pub open spec fn history_before(history: Seq<UndoEntryView>, transaction: nat) -> bool {
    forall|i: int|
        0 <= i < history.len() ==> (#[trigger] history[i]).transaction < transaction
            && is_inverse(history[i].inverse)
}

/// The state between two ticks: all recorded transactions are closed.
pub open spec fn state_wf(state: EngineState) -> bool {
    history_before(state.history, state.transaction)
}

/// The command that brings the cell at `coord` back to what `grid` holds there.
pub open spec fn inverse_at(grid: Map<IsoCoord, usize>, coord: IsoCoord) -> CommandView {
    if grid.contains_key(coord) {
        CommandView::SetTiles { coords: seq![coord], tile_type: grid[coord] }
    } else {
        CommandView::Despawn(coord)
    }
}

/// Assigns `tile_type` to one cell. A user's request also records the inverse
/// under the current transaction.
pub open spec fn set_cell(
    state: EngineState,
    user_generated: bool,
    coord: IsoCoord,
    tile_type: usize,
) -> EngineState {
    EngineState {
        grid: state.grid.insert(coord, tile_type),
        history: if user_generated {
            state.history.push(
                UndoEntryView {
                    transaction: state.transaction,
                    inverse: inverse_at(state.grid, coord),
                },
            )
        } else {
            state.history
        },
        transaction: state.transaction,
    }
}

/// Assigns `tile_type` to each cell of `coords`, one after the other in list order.
pub open spec fn set_cells(
    state: EngineState,
    user_generated: bool,
    coords: Seq<IsoCoord>,
    tile_type: usize,
) -> EngineState
    decreases coords.len(),
{
    if coords.len() == 0 {
        state
    } else {
        set_cell(
            set_cells(state, user_generated, coords.drop_last(), tile_type),
            user_generated,
            coords.last(),
            tile_type,
        )
    }
}

/// Removes the cell at `coord`, if there is one. Nothing is recorded.
pub open spec fn despawn(state: EngineState, coord: IsoCoord) -> EngineState {
    EngineState { grid: state.grid.remove(coord), ..state }
}

/// How many entries at the end of `history` carry `transaction`.
pub open spec fn group_len(history: Seq<UndoEntryView>, transaction: nat) -> nat
    decreases history.len(),
{
    if history.len() > 0 && history.last().transaction == transaction {
        1 + group_len(history.drop_last(), transaction)
    } else {
        0
    }
}

/// The size of the most recent transaction in `history`: the entries at its
/// end that share the transaction of the last one.
pub open spec fn last_group_len(history: Seq<UndoEntryView>) -> nat {
    if history.len() == 0 {
        0
    } else {
        group_len(history, history.last().transaction)
    }
}

/// Carries out a recorded inverse. Nothing is recorded for it.
pub open spec fn replay_one(state: EngineState, inverse: CommandView) -> EngineState {
    match inverse {
        CommandView::SetTiles { coords, tile_type } => set_cells(state, false, coords, tile_type),
        CommandView::Despawn(coord) => despawn(state, coord),
        CommandView::Undo => state,
    }
}

/// Carries out the inverses of `entries`, the oldest first.
pub open spec fn replay(state: EngineState, entries: Seq<UndoEntryView>) -> EngineState
    decreases entries.len(),
{
    if entries.len() == 0 {
        state
    } else {
        replay_one(replay(state, entries.drop_last()), entries.last().inverse)
    }
}

/// Reverses the most recent transaction: its entries leave the history and
/// their inverses are carried out, the oldest first. With an empty history
/// nothing happens.
pub open spec fn undo_last(state: EngineState) -> EngineState {
    let kept = state.history.len() - last_group_len(state.history);
    replay(
        EngineState { history: state.history.take(kept), ..state },
        state.history.skip(kept),
    )
}

/// What one command of the user does.
pub open spec fn apply_command(state: EngineState, command: CommandView) -> EngineState {
    match command {
        CommandView::SetTiles { coords, tile_type } => set_cells(state, true, coords, tile_type),
        CommandView::Despawn(coord) => despawn(state, coord),
        CommandView::Undo => undo_last(state),
    }
}

/// What the commands of one tick do: they are carried out in the reverse of
/// the order in which they arrived.
pub open spec fn apply_batch(state: EngineState, batch: Seq<CommandView>) -> EngineState
    decreases batch.len(),
{
    if batch.len() == 0 {
        state
    } else {
        apply_batch(apply_command(state, batch.last()), batch.drop_last())
    }
}

/// One tick: the batch is carried out under the current transaction, then the
/// transaction counter advances by one.
pub open spec fn tick(state: EngineState, batch: Seq<CommandView>) -> EngineState {
    let done = apply_batch(state, batch);
    EngineState { transaction: done.transaction + 1, ..done }
}

} // verus!
