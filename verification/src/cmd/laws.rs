//! What holds of the command engine over whole ticks.

use crate::cmd::model::{
    apply_batch, apply_command, group_len, history_within, inverse_at, is_inverse,
    last_group_len, replay, replay_one, set_cell, set_cells, state_wf, tick, CommandView,
    EngineState, UndoEntryView,
};
use crate::iso::IsoCoord;
use vstd::prelude::*;

verus! {

/// The cell that a recorded inverse acts on.
pub open spec fn target(inverse: CommandView) -> IsoCoord {
    match inverse {
        CommandView::SetTiles { coords, tile_type } => coords[0],
        CommandView::Despawn(coord) => coord,
        CommandView::Undo => arbitrary(),
    }
}

/// Every coordinate that `coords` names more than once already holds
/// `tile_type` in `grid`.
pub open spec fn repeats_are_settled(
    grid: Map<IsoCoord, usize>,
    coords: Seq<IsoCoord>,
    tile_type: usize,
) -> bool {
    forall|i: int, j: int|
        0 <= i < j < coords.len() && #[trigger] coords[i] == #[trigger] coords[j]
            ==> grid.contains_key(coords[i]) && grid[coords[i]] == tile_type
}

/// A tick that is one `SetTiles` command of the user.
pub open spec fn set_tick(
    state: EngineState,
    coords: Seq<IsoCoord>,
    tile_type: usize,
) -> EngineState {
    tick(state, seq![CommandView::SetTiles { coords, tile_type }])
}

/// A tick that is one `Undo` command.
pub open spec fn undo_tick(state: EngineState) -> EngineState {
    tick(state, seq![CommandView::Undo])
}

/// A batch of one command is that command.
pub proof fn lemma_single_command(state: EngineState, command: CommandView)
    ensures
        apply_batch(state, seq![command]) == apply_command(state, command),
        tick(state, seq![command]) == (EngineState {
            transaction: state.transaction + 1,
            ..apply_command(state, command)
        }),
{
    let batch = seq![command];
    assert(batch.last() == command);
    assert(batch.drop_last().len() == 0);
    assert(apply_batch(apply_command(state, command), batch.drop_last()) == apply_command(
        state,
        command,
    ));
    lemma_command_keeps_transaction(state, command);
}

/// Assigning to one coordinate is `set_cell`.
pub proof fn lemma_set_single(
    state: EngineState,
    user_generated: bool,
    coord: IsoCoord,
    tile_type: usize,
)
    ensures
        set_cells(state, user_generated, seq![coord], tile_type) == set_cell(
            state,
            user_generated,
            coord,
            tile_type,
        ),
{
    let coords = seq![coord];
    assert(coords.last() == coord);
    assert(coords.drop_last().len() == 0);
    assert(set_cells(state, user_generated, coords.drop_last(), tile_type) == state);
}

/// What a `SetTiles` command leaves behind: every named cell holds the tile
/// type, the other cells are as before, and a user's request has appended one
/// inverse per named coordinate, in list order, under the current transaction.
pub proof fn lemma_set_cells_effect(
    state: EngineState,
    user_generated: bool,
    coords: Seq<IsoCoord>,
    tile_type: usize,
)
    ensures
        ({
            let done = set_cells(state, user_generated, coords, tile_type);
            let base = state.history.len() as int;
            &&& done.transaction == state.transaction
            &&& forall|coord: IsoCoord|
                done.grid.contains_key(coord) <==> coords.contains(coord)
                    || state.grid.contains_key(coord)
            &&& forall|coord: IsoCoord|
                coords.contains(coord) ==> #[trigger] done.grid[coord] == tile_type
            &&& forall|coord: IsoCoord|
                !coords.contains(coord) ==> #[trigger] done.grid[coord] == state.grid[coord]
            &&& !user_generated ==> done.history == state.history
            &&& user_generated ==> {
                &&& done.history.len() == base + coords.len()
                &&& done.history.take(base) == state.history
                &&& forall|i: int|
                    0 <= i < coords.len() ==> {
                        &&& (#[trigger] done.history[base + i]).transaction == state.transaction
                        &&& is_inverse(done.history[base + i].inverse)
                        &&& target(done.history[base + i].inverse) == coords[i]
                    }
            }
        }),
    decreases coords.len(),
{
    let done = set_cells(state, user_generated, coords, tile_type);
    let base = state.history.len() as int;
    if coords.len() == 0 {
        assert(done.history.take(base) =~= state.history);
    } else {
        let front = coords.drop_last();
        let last = coords.last();
        let mid = set_cells(state, user_generated, front, tile_type);
        lemma_set_cells_effect(state, user_generated, front, tile_type);
        assert(done == set_cell(mid, user_generated, last, tile_type));
        assert forall|coord: IsoCoord| coords.contains(coord) <==> front.contains(coord) || coord
            == last by {
            if coords.contains(coord) {
                let i = choose|i: int| 0 <= i < coords.len() && coords[i] == coord;
                if i < front.len() {
                    assert(front[i] == coord);
                }
            }
            if front.contains(coord) {
                let i = choose|i: int| 0 <= i < front.len() && front[i] == coord;
                assert(coords[i] == coord);
            }
            if coord == last {
                assert(coords[coords.len() - 1] == coord);
            }
        }
        if user_generated {
            assert(done.history.take(base) =~= mid.history.take(base));
            assert forall|i: int| 0 <= i < coords.len() implies {
                &&& (#[trigger] done.history[base + i]).transaction == state.transaction
                &&& is_inverse(done.history[base + i].inverse)
                &&& target(done.history[base + i].inverse) == coords[i]
            } by {
                if i < front.len() {
                    assert(done.history[base + i] == mid.history[base + i]);
                    assert(front[i] == coords[i]);
                }
            }
        }
    }
}

/// A recorded inverse changes the grid and nothing else.
pub proof fn lemma_replay_one_frame(state: EngineState, inverse: CommandView)
    ensures
        replay_one(state, inverse).history == state.history,
        replay_one(state, inverse).transaction == state.transaction,
{
    match inverse {
        CommandView::SetTiles { coords, tile_type } => {
            lemma_set_cells_effect(state, false, coords, tile_type);
        },
        CommandView::Despawn(coord) => {},
        CommandView::Undo => {},
    }
}

/// Replaying recorded inverses changes the grid and nothing else.
pub proof fn lemma_replay_frame(state: EngineState, entries: Seq<UndoEntryView>)
    ensures
        replay(state, entries).history == state.history,
        replay(state, entries).transaction == state.transaction,
    decreases entries.len(),
{
    if entries.len() > 0 {
        lemma_replay_frame(state, entries.drop_last());
        lemma_replay_one_frame(replay(state, entries.drop_last()), entries.last().inverse);
    }
}

/// No command changes the transaction counter.
pub proof fn lemma_command_keeps_transaction(state: EngineState, command: CommandView)
    ensures
        apply_command(state, command).transaction == state.transaction,
{
    match command {
        CommandView::SetTiles { coords, tile_type } => {
            lemma_set_cells_effect(state, true, coords, tile_type);
        },
        CommandView::Despawn(coord) => {},
        CommandView::Undo => {
            let kept = state.history.len() - last_group_len(state.history);
            lemma_replay_frame(
                EngineState { history: state.history.take(kept), ..state },
                state.history.skip(kept),
            );
        },
    }
}

/// The size of the most recent transaction is at most the length of the history.
pub proof fn lemma_group_len_bound(history: Seq<UndoEntryView>, transaction: nat)
    ensures
        group_len(history, transaction) <= history.len(),
        last_group_len(history) <= history.len(),
    decreases history.len(),
{
    if history.len() > 0 {
        lemma_group_len_bound(history.drop_last(), transaction);
        lemma_group_len_bound(history.drop_last(), history.last().transaction);
    }
}

/// While a tick runs, every entry of the history is an inverse recorded up to
/// the current transaction; each command keeps it so.
pub proof fn lemma_command_keeps_history_within(state: EngineState, command: CommandView)
    requires
        history_within(state.history, state.transaction),
    ensures
        history_within(apply_command(state, command).history, state.transaction),
{
    let done = apply_command(state, command);
    match command {
        CommandView::SetTiles { coords, tile_type } => {
            lemma_set_cells_effect(state, true, coords, tile_type);
            let base = state.history.len() as int;
            assert forall|i: int| 0 <= i < done.history.len() implies (
            #[trigger] done.history[i]).transaction <= state.transaction && is_inverse(
                done.history[i].inverse,
            ) by {
                if i < base {
                    assert(done.history[i] == done.history.take(base)[i]);
                } else {
                    assert(done.history[i] == done.history[base + (i - base)]);
                }
            }
        },
        CommandView::Despawn(coord) => {},
        CommandView::Undo => {
            lemma_group_len_bound(state.history, 0);
            let kept = state.history.len() - last_group_len(state.history);
            lemma_replay_frame(
                EngineState { history: state.history.take(kept), ..state },
                state.history.skip(kept),
            );
            assert forall|i: int| 0 <= i < done.history.len() implies (
            #[trigger] done.history[i]).transaction <= state.transaction && is_inverse(
                done.history[i].inverse,
            ) by {
                assert(done.history[i] == state.history[i]);
            }
        },
    }
}

/// A batch keeps the transaction counter and the shape of the history.
pub proof fn lemma_batch_keeps_history_within(state: EngineState, batch: Seq<CommandView>)
    requires
        history_within(state.history, state.transaction),
    ensures
        apply_batch(state, batch).transaction == state.transaction,
        history_within(apply_batch(state, batch).history, state.transaction),
    decreases batch.len(),
{
    if batch.len() > 0 {
        lemma_command_keeps_transaction(state, batch.last());
        lemma_command_keeps_history_within(state, batch.last());
        lemma_batch_keeps_history_within(apply_command(state, batch.last()), batch.drop_last());
    }
}

/// Between ticks every entry of the history is an inverse of an earlier
/// transaction: a tick on such a state leaves such a state, whatever the batch.
pub proof fn law_tick_keeps_wf(state: EngineState, batch: Seq<CommandView>)
    requires
        state_wf(state),
    ensures
        state_wf(tick(state, batch)),
        tick(state, batch).transaction == state.transaction + 1,
{
    assert(history_within(state.history, state.transaction));
    lemma_batch_keeps_history_within(state, batch);
}

/// A tick without commands changes neither the grid nor the undo history; the
/// transaction counter still advances by one.
pub proof fn law_empty_tick(state: EngineState)
    ensures
        tick(state, Seq::empty()) == (EngineState {
            transaction: state.transaction + 1,
            ..state
        }),
{
}

/// What a recorded inverse does to the grid.
pub open spec fn restore(grid: Map<IsoCoord, usize>, inverse: CommandView) -> Map<IsoCoord, usize> {
    match inverse {
        CommandView::SetTiles { coords, tile_type } => grid.insert(coords[0], tile_type),
        CommandView::Despawn(coord) => grid.remove(coord),
        CommandView::Undo => grid,
    }
}

/// What recorded inverses do to the grid when carried out the oldest first.
pub open spec fn restore_all(grid: Map<IsoCoord, usize>, entries: Seq<UndoEntryView>) -> Map<
    IsoCoord,
    usize,
>
    decreases entries.len(),
{
    if entries.len() == 0 {
        grid
    } else {
        restore(restore_all(grid, entries.drop_last()), entries.last().inverse)
    }
}

/// Every entry is a recorded inverse.
pub open spec fn all_inverses(entries: Seq<UndoEntryView>) -> bool {
    forall|i: int| 0 <= i < entries.len() ==> is_inverse((#[trigger] entries[i]).inverse)
}

/// Replaying recorded inverses is `restore_all` on the grid.
pub proof fn lemma_replay_is_restore_all(state: EngineState, entries: Seq<UndoEntryView>)
    requires
        all_inverses(entries),
    ensures
        replay(state, entries) == (EngineState {
            grid: restore_all(state.grid, entries),
            ..state
        }),
    decreases entries.len(),
{
    if entries.len() > 0 {
        let front = entries.drop_last();
        let inverse = entries.last().inverse;
        assert(all_inverses(front)) by {
            assert forall|i: int| 0 <= i < front.len() implies is_inverse(
                (#[trigger] front[i]).inverse,
            ) by {
                assert(front[i] == entries[i]);
            }
        }
        lemma_replay_is_restore_all(state, front);
        assert(is_inverse(entries[entries.len() - 1].inverse));
        let mid = replay(state, front);
        match inverse {
            CommandView::SetTiles { coords, tile_type } => {
                assert(coords =~= seq![coords[0]]);
                lemma_set_single(mid, false, coords[0], tile_type);
            },
            CommandView::Despawn(coord) => {},
            CommandView::Undo => {},
        }
    }
}

/// Inverses that act on other cells do not care what one cell holds.
proof fn lemma_restore_all_skips_cell(
    grid: Map<IsoCoord, usize>,
    entries: Seq<UndoEntryView>,
    coord: IsoCoord,
    tile_type: usize,
)
    requires
        all_inverses(entries),
        forall|i: int| 0 <= i < entries.len() ==> target((#[trigger] entries[i]).inverse) != coord,
    ensures
        restore_all(grid.insert(coord, tile_type), entries) == restore_all(grid, entries).insert(
            coord,
            tile_type,
        ),
    decreases entries.len(),
{
    if entries.len() > 0 {
        let front = entries.drop_last();
        let inverse = entries.last().inverse;
        assert forall|i: int| 0 <= i < front.len() implies is_inverse(
            (#[trigger] front[i]).inverse,
        ) && target(front[i].inverse) != coord by {
            assert(front[i] == entries[i]);
        }
        lemma_restore_all_skips_cell(grid, front, coord, tile_type);
        assert(is_inverse(entries[entries.len() - 1].inverse));
        assert(target(entries[entries.len() - 1].inverse) != coord);
        let with = restore_all(grid, front).insert(coord, tile_type);
        assert(restore(with, inverse) =~= restore(restore_all(grid, front), inverse).insert(
            coord,
            tile_type,
        ));
    }
}

/// Whether `coords` names `coord` more than once.
pub open spec fn named_twice(coords: Seq<IsoCoord>, coord: IsoCoord) -> bool {
    exists|i: int, j: int|
        0 <= i < j < coords.len() && #[trigger] coords[i] == coord && #[trigger] coords[j]
            == coord
}

/// The grid after a user's `SetTiles` and the `Undo` that follows it: as
/// before the `SetTiles`, except that a cell that was named more than once
/// holds the tile type.
pub open spec fn after_round_trip(
    grid: Map<IsoCoord, usize>,
    coords: Seq<IsoCoord>,
    tile_type: usize,
) -> Map<IsoCoord, usize> {
    Map::new(
        |coord: IsoCoord| grid.contains_key(coord) || named_twice(coords, coord),
        |coord: IsoCoord|
            if named_twice(coords, coord) {
                tile_type
            } else {
                grid[coord]
            },
    )
}

/// A list names a coordinate more than once when the list without its last
/// entry does, or when the last entry names it again.
proof fn lemma_named_twice_step(coords: Seq<IsoCoord>, coord: IsoCoord)
    requires
        coords.len() > 0,
    ensures
        named_twice(coords, coord) <==> named_twice(coords.drop_last(), coord) || (coord
            == coords.last() && coords.drop_last().contains(coord)),
{
    let front = coords.drop_last();
    if named_twice(coords, coord) {
        let (i, j) = choose|i: int, j: int|
            0 <= i < j < coords.len() && #[trigger] coords[i] == coord && #[trigger] coords[j]
                == coord;
        if j < front.len() {
            assert(front[i] == coord && front[j] == coord);
        } else {
            assert(front[i] == coord);
        }
    }
    if named_twice(front, coord) {
        let (i, j) = choose|i: int, j: int|
            0 <= i < j < front.len() && #[trigger] front[i] == coord && #[trigger] front[j]
                == coord;
        assert(coords[i] == coord && coords[j] == coord);
    }
    if coord == coords.last() && front.contains(coord) {
        let i = choose|i: int| 0 <= i < front.len() && front[i] == coord;
        assert(coords[i] == coord && coords[coords.len() - 1] == coord);
    }
}

/// After a user's `SetTiles`, carrying out the inverses that it recorded,
/// the oldest first, gives back the grid from before the command, except
/// that a cell that was named more than once holds the tile type.
proof fn lemma_set_then_restore(state: EngineState, coords: Seq<IsoCoord>, tile_type: usize)
    ensures
        ({
            let done = set_cells(state, true, coords, tile_type);
            restore_all(done.grid, done.history.skip(state.history.len() as int))
                == after_round_trip(state.grid, coords, tile_type)
        }),
    decreases coords.len(),
{
    let done = set_cells(state, true, coords, tile_type);
    let base = state.history.len() as int;
    lemma_set_cells_effect(state, true, coords, tile_type);
    if coords.len() == 0 {
        assert(done.history.skip(base).len() == 0);
        assert(after_round_trip(state.grid, coords, tile_type) =~= state.grid);
    } else {
        let front = coords.drop_last();
        let last = coords.last();
        let mid = set_cells(state, true, front, tile_type);
        lemma_set_cells_effect(state, true, front, tile_type);
        lemma_set_then_restore(state, front, tile_type);
        let recorded = mid.history.skip(base);
        let entry = UndoEntryView {
            transaction: mid.transaction,
            inverse: inverse_at(mid.grid, last),
        };
        assert(done == set_cell(mid, true, last, tile_type));
        assert(done.history.skip(base) =~= recorded.push(entry));
        assert(recorded.push(entry).drop_last() =~= recorded);
        assert(recorded.push(entry).last() == entry);
        assert(restore_all(done.grid, done.history.skip(base)) == restore(
            restore_all(done.grid, recorded),
            entry.inverse,
        ));
        assert(all_inverses(recorded)) by {
            assert forall|i: int| 0 <= i < recorded.len() implies is_inverse(
                (#[trigger] recorded[i]).inverse,
            ) by {
                assert(recorded[i] == mid.history[base + i]);
            }
        }
        let before = after_round_trip(state.grid, front, tile_type);
        let after = after_round_trip(state.grid, coords, tile_type);
        assert forall|coord: IsoCoord|
            named_twice(coords, coord) <==> named_twice(front, coord) || (coord == last
                && front.contains(coord)) by {
            lemma_named_twice_step(coords, coord);
        }
        if front.contains(last) {
            assert(mid.grid.contains_key(last) && mid.grid[last] == tile_type);
            assert(done.grid =~= mid.grid);
            assert(entry.inverse == CommandView::SetTiles { coords: seq![last], tile_type });
            assert(restore(before, entry.inverse) =~= after);
        } else {
            assert forall|i: int| 0 <= i < recorded.len() implies target(
                (#[trigger] recorded[i]).inverse,
            ) != last by {
                assert(recorded[i] == mid.history[base + i]);
                assert(target(mid.history[base + i].inverse) == front[i]);
                assert(front.contains(front[i]));
            }
            lemma_restore_all_skips_cell(mid.grid, recorded, last, tile_type);
            assert(mid.grid.contains_key(last) <==> state.grid.contains_key(last));
            assert(mid.grid[last] == state.grid[last]);
            assert(entry.inverse == inverse_at(state.grid, last));
            assert(!named_twice(front, last)) by {
                if named_twice(front, last) {
                    let (i, j) = choose|i: int, j: int|
                        0 <= i < j < front.len() && #[trigger] front[i] == last
                            && #[trigger] front[j] == last;
                    assert(front.contains(front[i]));
                }
            }
            assert(restore(before.insert(last, tile_type), entry.inverse) =~= after);
        }
    }
}

/// Entries that a tick has just recorded form the most recent transaction.
proof fn lemma_fresh_group(history: Seq<UndoEntryView>, base: int, transaction: nat)
    requires
        0 <= base <= history.len(),
        forall|i: int| 0 <= i < base ==> (#[trigger] history[i]).transaction < transaction,
        forall|i: int|
            base <= i < history.len() ==> (#[trigger] history[i]).transaction == transaction,
    ensures
        group_len(history, transaction) == history.len() - base,
    decreases history.len(),
{
    if history.len() > base {
        lemma_fresh_group(history.drop_last(), base, transaction);
        assert(history.last() == history[history.len() - 1]);
    } else if history.len() > 0 {
        assert(history.last() == history[history.len() - 1]);
    }
}

/// What a `SetTiles` of the user and the `Undo` of the next tick leave: the
/// undo history from before the first tick, and its grid, except that a cell
/// that the command named more than once holds the tile type. The inverses
/// of a transaction are carried out the oldest first, so the entry that the
/// first naming of a cell recorded is undone before the entry of the second,
/// which writes the tile type again.
pub proof fn law_set_then_undo_in_general(
    state: EngineState,
    coords: Seq<IsoCoord>,
    tile_type: usize,
)
    requires
        state_wf(state),
        coords.len() >= 1,
    ensures
        undo_tick(set_tick(state, coords, tile_type)).grid == after_round_trip(
            state.grid,
            coords,
            tile_type,
        ),
        undo_tick(set_tick(state, coords, tile_type)).history == state.history,
        undo_tick(set_tick(state, coords, tile_type)).transaction == state.transaction + 2,
{
    let command = CommandView::SetTiles { coords, tile_type };
    let done = set_cells(state, true, coords, tile_type);
    let base = state.history.len() as int;
    lemma_single_command(state, command);
    lemma_set_cells_effect(state, true, coords, tile_type);
    lemma_set_then_restore(state, coords, tile_type);
    let placed = set_tick(state, coords, tile_type);
    assert(placed == EngineState { transaction: state.transaction + 1, ..done });
    lemma_single_command(placed, CommandView::Undo);
    assert forall|i: int| 0 <= i < base implies (#[trigger] placed.history[i]).transaction
        < state.transaction by {
        assert(placed.history[i] == placed.history.take(base)[i]);
    }
    assert forall|i: int| base <= i < placed.history.len() implies (
    #[trigger] placed.history[i]).transaction == state.transaction by {
        assert(placed.history[i] == placed.history[base + (i - base)]);
    }
    lemma_fresh_group(placed.history, base, state.transaction);
    assert(placed.history.last() == placed.history[base + (coords.len() - 1)]);
    assert(last_group_len(placed.history) == coords.len());
    let recorded = placed.history.skip(base);
    assert(all_inverses(recorded)) by {
        assert forall|i: int| 0 <= i < recorded.len() implies is_inverse(
            (#[trigger] recorded[i]).inverse,
        ) by {
            assert(recorded[i] == placed.history[base + i]);
        }
    }
    lemma_replay_is_restore_all(
        EngineState { history: placed.history.take(base), ..placed },
        recorded,
    );
}

/// Transactional grouping: after a tick whose only command is a `SetTiles`
/// of the user with at least one coordinate, a tick whose only command is
/// `Undo` brings back the grid and the undo history from before the first
/// tick. This holds of the lists in which a coordinate is named twice only
/// where the cell already holds the tile type, and of no others.
pub proof fn law_set_then_undo(state: EngineState, coords: Seq<IsoCoord>, tile_type: usize)
    requires
        state_wf(state),
        coords.len() >= 1,
    ensures
        repeats_are_settled(state.grid, coords, tile_type) <==> undo_tick(
            set_tick(state, coords, tile_type),
        ).grid == state.grid,
        undo_tick(set_tick(state, coords, tile_type)).history == state.history,
        undo_tick(set_tick(state, coords, tile_type)).transaction == state.transaction + 2,
{
    law_set_then_undo_in_general(state, coords, tile_type);
    let left = after_round_trip(state.grid, coords, tile_type);
    if repeats_are_settled(state.grid, coords, tile_type) {
        assert forall|coord: IsoCoord| named_twice(coords, coord) implies state.grid.contains_key(
            coord,
        ) && state.grid[coord] == tile_type by {
            let (i, j) = choose|i: int, j: int|
                0 <= i < j < coords.len() && #[trigger] coords[i] == coord && #[trigger] coords[j]
                    == coord;
            assert(coords[i] == coords[j]);
        }
        assert(left =~= state.grid);
    }
    if left == state.grid {
        assert forall|i: int, j: int|
            0 <= i < j < coords.len() && #[trigger] coords[i] == #[trigger] coords[j]
                implies state.grid.contains_key(coords[i]) && state.grid[coords[i]]
                == tile_type by {
            assert(named_twice(coords, coords[i]));
            assert(left.contains_key(coords[i]));
            assert(left[coords[i]] == tile_type);
        }
    }
}

/// Create/destroy symmetry: a user's `SetTiles` of one empty cell creates the
/// cell and records `Despawn` of it under the current transaction; an `Undo`
/// in the next tick removes the cell again and takes the entry off the history.
pub proof fn law_create_then_undo(state: EngineState, coord: IsoCoord, tile_type: usize)
    requires
        state_wf(state),
        !state.grid.contains_key(coord),
    ensures
        set_tick(state, seq![coord], tile_type).grid == state.grid.insert(coord, tile_type),
        set_tick(state, seq![coord], tile_type).history == state.history.push(
            UndoEntryView { transaction: state.transaction, inverse: CommandView::Despawn(coord) },
        ),
        !undo_tick(set_tick(state, seq![coord], tile_type)).grid.contains_key(coord),
        undo_tick(set_tick(state, seq![coord], tile_type)).grid == state.grid,
        undo_tick(set_tick(state, seq![coord], tile_type)).history == state.history,
{
    let coords = seq![coord];
    lemma_single_command(state, CommandView::SetTiles { coords, tile_type });
    lemma_set_single(state, true, coord, tile_type);
    law_set_then_undo(state, coords, tile_type);
}

/// Overwrite symmetry: a user's `SetTiles` of one occupied cell overwrites its
/// tile type and records a `SetTiles` of that cell with the tile type it had;
/// an `Undo` in the next tick puts that tile type back.
pub proof fn law_overwrite_then_undo(state: EngineState, coord: IsoCoord, tile_type: usize)
    requires
        state_wf(state),
        state.grid.contains_key(coord),
    ensures
        set_tick(state, seq![coord], tile_type).grid == state.grid.insert(coord, tile_type),
        set_tick(state, seq![coord], tile_type).history == state.history.push(
            UndoEntryView {
                transaction: state.transaction,
                inverse: CommandView::SetTiles {
                    coords: seq![coord],
                    tile_type: state.grid[coord],
                },
            },
        ),
        undo_tick(set_tick(state, seq![coord], tile_type)).grid[coord] == state.grid[coord],
        undo_tick(set_tick(state, seq![coord], tile_type)).grid == state.grid,
        undo_tick(set_tick(state, seq![coord], tile_type)).history == state.history,
{
    let coords = seq![coord];
    lemma_single_command(state, CommandView::SetTiles { coords, tile_type });
    lemma_set_single(state, true, coord, tile_type);
    law_set_then_undo(state, coords, tile_type);
}

/// Reverse-order processing: of two commands submitted in one tick, the one
/// that arrived later is carried out first.
pub proof fn law_later_command_runs_first(
    state: EngineState,
    first: CommandView,
    second: CommandView,
)
    ensures
        tick(state, seq![first, second]) == (EngineState {
            transaction: state.transaction + 1,
            ..apply_command(apply_command(state, second), first)
        }),
{
    let batch = seq![first, second];
    assert(batch.last() == second);
    assert(batch.drop_last() =~= seq![first]);
    lemma_single_command(apply_command(state, second), first);
    lemma_command_keeps_transaction(state, second);
    lemma_command_keeps_transaction(apply_command(state, second), first);
}

/// Reverse-order processing on one cell: when a tick submits a `SetTiles` of
/// `coord` with `earlier` and then one with `later`, the cell ends with
/// `earlier`, and the history gains the inverse of the cell as it was before
/// the tick, followed by a `SetTiles` that writes `later`.
pub proof fn law_same_cell_twice(
    state: EngineState,
    coord: IsoCoord,
    earlier: usize,
    later: usize,
)
    ensures
        ({
            let done = tick(
                state,
                seq![
                    CommandView::SetTiles { coords: seq![coord], tile_type: earlier },
                    CommandView::SetTiles { coords: seq![coord], tile_type: later },
                ],
            );
            &&& done.grid == state.grid.insert(coord, earlier)
            &&& done.grid[coord] == earlier
            &&& done.history == state.history.push(
                UndoEntryView {
                    transaction: state.transaction,
                    inverse: inverse_at(state.grid, coord),
                },
            ).push(
                UndoEntryView {
                    transaction: state.transaction,
                    inverse: CommandView::SetTiles { coords: seq![coord], tile_type: later },
                },
            )
        }),
{
    let first = CommandView::SetTiles { coords: seq![coord], tile_type: earlier };
    let second = CommandView::SetTiles { coords: seq![coord], tile_type: later };
    law_later_command_runs_first(state, first, second);
    lemma_set_single(state, true, coord, later);
    let mid = set_cell(state, true, coord, later);
    lemma_set_single(mid, true, coord, earlier);
    assert(mid.grid.insert(coord, earlier) =~= state.grid.insert(coord, earlier));
}

/// Undo-group boundary: two ticks with one `SetTiles` of the user each record
/// under two transactions, and an `Undo` in a third tick reverses the later
/// one only: the grid and the history are what the first tick left. This is
/// stated for a second command that names at least one coordinate (with none
/// it records nothing, and the `Undo` reverses the first tick) and names a
/// coordinate twice only where the cell already holds its tile type.
pub proof fn law_undo_reverses_latest_only(
    state: EngineState,
    first_coords: Seq<IsoCoord>,
    first_type: usize,
    second_coords: Seq<IsoCoord>,
    second_type: usize,
)
    requires
        state_wf(state),
        second_coords.len() >= 1,
        repeats_are_settled(
            set_tick(state, first_coords, first_type).grid,
            second_coords,
            second_type,
        ),
    ensures
        ({
            let first = set_tick(state, first_coords, first_type);
            let second = set_tick(first, second_coords, second_type);
            let base = state.history.len() as int;
            let n = first_coords.len() as int;
            &&& first.history.len() == base + n
            &&& second.history.len() == base + n + second_coords.len()
            &&& forall|i: int|
                base <= i < base + n ==> (#[trigger] second.history[i]).transaction
                    == state.transaction
            &&& forall|i: int|
                base + n <= i < second.history.len() ==> (#[trigger] second.history[i]).transaction
                    == state.transaction + 1
            &&& undo_tick(second).grid == first.grid
            &&& undo_tick(second).history == first.history
        }),
{
    let first = set_tick(state, first_coords, first_type);
    let second = set_tick(first, second_coords, second_type);
    let base = state.history.len() as int;
    let n = first_coords.len() as int;
    law_tick_keeps_wf(
        state,
        seq![CommandView::SetTiles { coords: first_coords, tile_type: first_type }],
    );
    law_set_then_undo(first, second_coords, second_type);
    lemma_single_command(
        state,
        CommandView::SetTiles { coords: first_coords, tile_type: first_type },
    );
    lemma_single_command(
        first,
        CommandView::SetTiles { coords: second_coords, tile_type: second_type },
    );
    lemma_set_cells_effect(state, true, first_coords, first_type);
    lemma_set_cells_effect(first, true, second_coords, second_type);
    assert forall|i: int| base <= i < base + n implies (#[trigger] second.history[i]).transaction
        == state.transaction by {
        assert(second.history[i] == second.history.take(base + n)[i]);
        assert(first.history[i] == first.history[base + (i - base)]);
    }
    assert forall|i: int| base + n <= i < second.history.len() implies (
    #[trigger] second.history[i]).transaction == state.transaction + 1 by {
        assert(second.history[i] == second.history[(base + n) + (i - (base + n))]);
    }
}

} // verus!
