//! Commands, the undo history, and the system that applies one tick's batch.

use crate::cmd::laws::lemma_group_len_bound;
use crate::cmd::model::{
    apply_batch, apply_command, group_len, history_before, history_within, inverse_at,
    is_inverse, last_group_len, replay, replay_one, set_cell, set_cells, tick, undo_last,
    CommandView, EngineState, UndoEntryView,
};
use crate::iso::{Grid, IsoCoord};
use std::collections::VecDeque;
use vstd::prelude::*;

pub mod laws;
pub mod model;
pub mod predict;

verus! {

/// An edit request.
#[derive(Clone, Debug, PartialEq, Eq)]
pub enum Command {
    /// Assign `tile_type` to every cell of `coords`.
    SetTiles { coords: Vec<IsoCoord>, tile_type: usize },
    /// Remove whatever occupies the cell.
    Despawn(IsoCoord),
    /// Reverse the most recent transaction.
    Undo,
}

impl View for Command {
    type V = CommandView;

    open spec fn view(&self) -> CommandView {
        match *self {
            Command::SetTiles { coords, tile_type } => CommandView::SetTiles {
                coords: coords@,
                tile_type,
            },
            Command::Despawn(coord) => CommandView::Despawn(coord),
            Command::Undo => CommandView::Undo,
        }
    }
}

/// An entry of the undo history.
#[derive(Clone, Debug, PartialEq, Eq)]
pub struct UndoEntry {
    /// The transaction in which the entry was recorded.
    pub transaction: u64,
    /// The command that reverses what was done: a `Set` of one coordinate, or a
    /// `Despawn`.
    pub inverse: Command,
}

impl View for UndoEntry {
    type V = UndoEntryView;

    open spec fn view(&self) -> UndoEntryView {
        UndoEntryView { transaction: self.transaction as nat, inverse: self.inverse@ }
    }
}

/// The views of the commands of a batch, in arrival order.
pub open spec fn command_views(commands: Seq<Command>) -> Seq<CommandView> {
    Seq::new(commands.len(), |i: int| commands[i]@)
}

/// The views of a list of undo entries, the oldest first.
pub open spec fn entry_views(entries: Seq<UndoEntry>) -> Seq<UndoEntryView> {
    Seq::new(entries.len(), |i: int| entries[i]@)
}

/// The undo history and the transaction counter.
pub struct CommandState {
    undo_stack: Vec<UndoEntry>,
    transaction: u64,
}

impl CommandState {
    /// The undo history, the oldest entry first.
    pub closed spec fn history(&self) -> Seq<UndoEntryView> {
        entry_views(self.undo_stack@)
    }

    /// The transaction under which the next tick records.
    pub closed spec fn transaction_id(&self) -> nat {
        self.transaction as nat
    }

    /// Between ticks every entry is an inverse of an earlier transaction.
    pub open spec fn wf(&self) -> bool {
        history_before(self.history(), self.transaction_id())
    }

    /// The state at the start of a session: nothing to undo, transaction 0.
    pub fn new() -> (state: CommandState)
        ensures
            state.wf(),
            state.history() == Seq::<UndoEntryView>::empty(),
            state.transaction_id() == 0,
    {
        let state = CommandState { undo_stack: Vec::new(), transaction: 0 };
        assert(state.history() =~= Seq::<UndoEntryView>::empty());
        state
    }

    /// The transaction under which the next tick records.
    pub fn transaction(&self) -> (id: u64)
        ensures
            id == self.transaction_id(),
    {
        self.transaction
    }

    /// The recorded entries, the oldest first.
    pub fn undo_stack(&self) -> (entries: &Vec<UndoEntry>)
        ensures
            entry_views(entries@) == self.history(),
    {
        &self.undo_stack
    }
}

impl Default for CommandState {
    fn default() -> (state: CommandState)
        ensures
            state.wf(),
            state.history() == Seq::<UndoEntryView>::empty(),
            state.transaction_id() == 0,
    {
        CommandState::new()
    }
}

/// The engine's state as the grid and the command state hold it.
pub open spec fn engine_state(grid: Grid, command_state: CommandState) -> EngineState {
    EngineState {
        grid: grid@,
        history: command_state.history(),
        transaction: command_state.transaction_id(),
    }
}

/// The work queue as mathematical values: each command with its origin.
spec fn queue_views(queue: Seq<(bool, Command)>) -> Seq<(bool, CommandView)> {
    Seq::new(queue.len(), |i: int| (queue[i].0, queue[i].1@))
}

/// Commands that all have the same origin.
spec fn tagged(user_generated: bool, commands: Seq<CommandView>) -> Seq<
    (bool, CommandView),
> {
    Seq::new(commands.len(), |i: int| (user_generated, commands[i]))
}

/// The inverses of `entries`, the newest first.
spec fn newest_first(entries: Seq<UndoEntryView>) -> Seq<CommandView> {
    Seq::new(entries.len(), |i: int| entries[entries.len() - 1 - i].inverse)
}

/// Carries out queued inverses as the work queue hands them out: from its tail.
spec fn drain(state: EngineState, pending: Seq<CommandView>) -> EngineState
    decreases pending.len(),
{
    if pending.len() == 0 {
        state
    } else {
        drain(replay_one(state, pending.last()), pending.drop_last())
    }
}

/// Inverses queued newest first and taken from the tail are carried out oldest
/// first.
proof fn lemma_drain_newest_first(state: EngineState, entries: Seq<UndoEntryView>)
    ensures
        drain(state, newest_first(entries)) == replay(state, entries),
    decreases entries.len(),
{
    if entries.len() > 0 {
        let queued = newest_first(entries);
        let rest = entries.skip(1);
        assert(queued.last() == entries[0].inverse);
        assert(queued.drop_last() =~= newest_first(rest));
        lemma_drain_newest_first(replay_one(state, entries[0].inverse), rest);
        lemma_replay_front(state, entries);
    }
}

/// Replaying a list is replaying its first entry, then the rest.
proof fn lemma_replay_front(state: EngineState, entries: Seq<UndoEntryView>)
    requires
        entries.len() > 0,
    ensures
        replay(state, entries) == replay(replay_one(state, entries[0].inverse), entries.skip(1)),
    decreases entries.len(),
{
    let first = replay_one(state, entries[0].inverse);
    if entries.len() == 1 {
        assert(replay(state, entries.drop_last()) == state);
        assert(entries.last() == entries[0]);
        assert(replay(first, entries.skip(1)) == first);
    } else {
        let front = entries.drop_last();
        lemma_replay_front(state, front);
        assert(front[0] == entries[0]);
        assert(front.skip(1) =~= entries.skip(1).drop_last());
        assert(entries.skip(1).last() == entries.last());
        assert(replay(first, entries.skip(1)) == replay_one(
            replay(first, entries.skip(1).drop_last()),
            entries.skip(1).last().inverse,
        ));
    }
}

/// Assigns `tile_type` to each cell of `coords` in list order and, for a
/// user's request, records each inverse under the current transaction.
fn set_tiles(
    grid: &mut Grid,
    command_state: &mut CommandState,
    user_generated: bool,
    coords: &Vec<IsoCoord>,
    tile_type: usize,
)
    requires
        old(grid).wf(),
        history_within(old(command_state).history(), old(command_state).transaction_id()),
    ensures
        final(grid).wf(),
        final(command_state).transaction_id() == old(command_state).transaction_id(),
        history_within(final(command_state).history(), final(command_state).transaction_id()),
        engine_state(*final(grid), *final(command_state)) == set_cells(
            engine_state(*old(grid), *old(command_state)),
            user_generated,
            coords@,
            tile_type,
        ),
{
    let ghost start = engine_state(*grid, *command_state);
    let mut i: usize = 0;
    while i < coords.len()
        invariant
            i <= coords@.len(),
            grid.wf(),
            command_state.transaction_id() == start.transaction,
            history_within(command_state.history(), command_state.transaction_id()),
            engine_state(*grid, *command_state) == set_cells(
                start,
                user_generated,
                coords@.take(i as int),
                tile_type,
            ),
        decreases coords@.len() - i,
    {
        let ghost before = engine_state(*grid, *command_state);
        let coord = coords[i];
        let previous = grid.set(coord, tile_type);
        if user_generated {
            let inverse = match previous {
                Some(previous_type) => {
                    let cell = vec![coord];
                    assert(cell@ =~= seq![coord]);
                    Command::SetTiles { coords: cell, tile_type: previous_type }
                },
                None => Command::Despawn(coord),
            };
            assert(inverse@ == inverse_at(before.grid, coord));
            let entry = UndoEntry { transaction: command_state.transaction, inverse };
            command_state.undo_stack.push(entry);
            assert(command_state.history() =~= before.history.push(entry@));
        }
        proof {
            assert(coords@.take(i + 1).drop_last() =~= coords@.take(i as int));
            assert(coords@.take(i + 1).last() == coord);
            assert(engine_state(*grid, *command_state) == set_cell(
                before,
                user_generated,
                coord,
                tile_type,
            ));
        }
        i += 1;
    }
    assert(coords@.take(coords@.len() as int) =~= coords@);
}

/// Takes the most recent transaction off the undo stack and queues its
/// inverses at the tail of the work queue, the newest first.
fn queue_last_transaction(
    command_state: &mut CommandState,
    command_queue: &mut VecDeque<(bool, Command)>,
)
    ensures
        final(command_state).transaction_id() == old(command_state).transaction_id(),
        final(command_state).history() == old(command_state).history().take(
            old(command_state).history().len() - last_group_len(old(command_state).history()),
        ),
        queue_views(final(command_queue)@) == queue_views(old(command_queue)@) + tagged(
            false,
            newest_first(
                old(command_state).history().skip(
                    old(command_state).history().len() - last_group_len(
                        old(command_state).history(),
                    ),
                ),
            ),
        ),
{
    let ghost history = command_state.history();
    let ghost queued = queue_views(command_queue@);
    let ghost total = history.len() as int;
    let ghost mut popped: int = 0;
    let mut last_tx: Option<u64> = None;
    assert(history.take(total) =~= history);
    assert(queue_views(command_queue@) =~= queued + tagged(
        false,
        newest_first(history.skip(total)),
    ));
    loop
        invariant
            0 <= popped <= total,
            total == history.len(),
            command_state.transaction_id() == old(command_state).transaction_id(),
            command_state.history() == history.take(total - popped),
            command_state.undo_stack@.len() == total - popped,
            popped == 0 <==> last_tx is None,
            popped > 0 ==> (last_tx matches Some(group) && group == history.last().transaction),
            popped > 0 ==> popped + group_len(
                history.take(total - popped),
                history.last().transaction,
            ) == last_group_len(history),
            queue_views(command_queue@) == queued + tagged(
                false,
                newest_first(history.skip(total - popped)),
            ),
        ensures
            popped == last_group_len(history),
            command_state.transaction_id() == old(command_state).transaction_id(),
            command_state.history() == history.take(total - popped),
            queue_views(command_queue@) == queued + tagged(
                false,
                newest_first(history.skip(total - popped)),
            ),
        decreases total - popped,
    {
        let len = command_state.undo_stack.len();
        if len == 0 {
            break ;
        }
        let tx = command_state.undo_stack[len - 1].transaction;
        assert(history.take(total - popped).last() == command_state.undo_stack@[len - 1]@);
        let same_group = match last_tx {
            Some(group) => group == tx,
            None => true,
        };
        if !same_group {
            break ;
        }
        let ghost queue_before = queue_views(command_queue@);
        proof {
            let tail = history.take(total - popped);
            assert(tail.last().transaction == history.last().transaction);
            assert(group_len(tail, history.last().transaction) == 1 + group_len(
                tail.drop_last(),
                history.last().transaction,
            ));
        }
        let entry = command_state.undo_stack.pop().unwrap();
        last_tx = Some(tx);
        command_queue.push_back((false, entry.inverse));
        proof {
            assert(history.take(total - popped).drop_last() =~= history.take(total - popped - 1));
            assert(command_state.history() =~= history.take(total - popped - 1));
            if popped == 0 {
                assert(history.take(total) =~= history);
            }
            let longer = newest_first(history.skip(total - popped - 1));
            let shorter = newest_first(history.skip(total - popped));
            assert(longer =~= shorter.push(entry@.inverse));
            assert(queue_views(command_queue@) =~= queue_before.push((false, entry@.inverse)));
            assert(queued + tagged(false, longer) =~= (queued + tagged(false, shorter)).push(
                (false, entry@.inverse),
            ));
            popped = popped + 1;
        }
    }
}

/// Applies the commands submitted since the last tick to the grid, records
/// the inverses of the user's commands under the current transaction, and
/// advances the transaction counter by one.
///
/// The commands go into a work queue in arrival order and are taken from its
/// tail, so they run in the reverse of the order in which they arrived. An
/// `Undo` puts the inverses of the most recent transaction at the tail, where
/// they run before the commands that still wait.
pub fn apply_commands_system(
    grid: &mut Grid,
    command_state: &mut CommandState,
    command_events: Vec<Command>,
)
    requires
        old(grid).wf(),
        old(command_state).wf(),
        old(command_state).transaction_id() < u64::MAX,
    ensures
        final(grid).wf(),
        final(command_state).wf(),
        engine_state(*final(grid), *final(command_state)) == tick(
            engine_state(*old(grid), *old(command_state)),
            command_views(command_events@),
        ),
{
    let ghost start = engine_state(*grid, *command_state);
    let ghost batch = command_views(command_events@);
    let mut command_queue: VecDeque<(bool, Command)> = VecDeque::new();
    assert(queue_views(command_queue@) =~= tagged(true, batch.take(0)));
    for command in events: command_events
        invariant
            queue_views(command_queue@) == tagged(true, batch.take(events.index() as int)),
            batch == command_views(events.seq()),
    {
        let ghost queue_before = queue_views(command_queue@);
        let ghost n = events.index() as int;
        command_queue.push_back((true, command));
        proof {
            assert(queue_views(command_queue@) =~= queue_before.push((true, command@)));
            assert(batch.take(n + 1) =~= batch.take(n).push(command@));
            assert(tagged(true, batch.take(n + 1)) =~= tagged(true, batch.take(n)).push(
                (true, command@),
            ));
        }
    }
    let ghost mut remaining: int = batch.len() as int;
    let ghost mut pending: Seq<CommandView> = Seq::empty();
    proof {
        assert(batch.take(remaining) =~= batch);
        assert(queue_views(command_queue@) =~= tagged(true, batch.take(remaining)) + tagged(
            false,
            pending,
        ));
    }
    loop
        invariant
            grid.wf(),
            0 <= remaining <= batch.len(),
            command_state.transaction_id() == start.transaction,
            start.transaction < u64::MAX,
            history_within(command_state.history(), command_state.transaction_id()),
            forall|i: int| 0 <= i < pending.len() ==> is_inverse(#[trigger] pending[i]),
            queue_views(command_queue@) == tagged(true, batch.take(remaining)) + tagged(
                false,
                pending,
            ),
            apply_batch(
                drain(engine_state(*grid, *command_state), pending),
                batch.take(remaining),
            ) == apply_batch(start, batch),
        ensures
            grid.wf(),
            command_state.transaction_id() == start.transaction,
            start.transaction < u64::MAX,
            history_within(command_state.history(), command_state.transaction_id()),
            engine_state(*grid, *command_state) == apply_batch(start, batch),
        decreases remaining, command_queue@.len(),
    {
        let ghost current = engine_state(*grid, *command_state);
        let ghost queue_before = queue_views(command_queue@);
        let ghost waiting = tagged(true, batch.take(remaining));
        let ghost replaying = pending.len() > 0;
        let (user_generated, command) = match command_queue.pop_back() {
            Some(item) => item,
            None => {
                proof {
                    assert(queue_before.len() == 0);
                    assert(waiting.len() == 0 && pending.len() == 0);
                    assert(batch.take(remaining).len() == 0);
                }
                break ;
            },
        };
        let ghost request = command@;
        proof {
            assert(queue_before.len() > 0);
            assert(queue_before.last() == (user_generated, request));
            assert(queue_views(command_queue@) =~= queue_before.drop_last());
            if replaying {
                assert(queue_before.last() == (false, pending.last()));
                assert(queue_before.drop_last() =~= waiting + tagged(false, pending.drop_last()));
                assert(is_inverse(pending.last()));
            } else {
                assert(queue_before =~= waiting);
                assert(waiting.last() == (true, batch[remaining - 1]));
                assert(batch.take(remaining).drop_last() =~= batch.take(remaining - 1));
                assert(batch.take(remaining).last() == batch[remaining - 1]);
                assert(queue_before.drop_last() =~= tagged(true, batch.take(remaining - 1))
                    + tagged(false, pending));
            }
        }
        match command {
            Command::SetTiles { coords, tile_type } => {
                set_tiles(grid, command_state, user_generated, &coords, tile_type);
            },
            Command::Despawn(coord) => {
                grid.despawn(coord);
            },
            Command::Undo => {
                assert(!replaying);
                queue_last_transaction(command_state, &mut command_queue);
                proof {
                    let kept = current.history.len() - last_group_len(current.history);
                    let group = current.history.skip(kept);
                    lemma_group_len_bound(current.history, current.transaction);
                    lemma_drain_newest_first(engine_state(*grid, *command_state), group);
                    assert(engine_state(*grid, *command_state) == EngineState {
                        history: current.history.take(kept),
                        ..current
                    });
                    assert(drain(engine_state(*grid, *command_state), newest_first(group))
                        == undo_last(current));
                    assert forall|i: int| 0 <= i < newest_first(group).len() implies is_inverse(
                        #[trigger] newest_first(group)[i],
                    ) by {
                        assert(is_inverse(current.history[kept + group.len() - 1 - i].inverse));
                    }
                    assert(history_within(command_state.history(), current.transaction)) by {
                        assert forall|i: int| 0 <= i < kept implies is_inverse(
                            (#[trigger] current.history.take(kept)[i]).inverse,
                        ) && current.history.take(kept)[i].transaction <= current.transaction by {
                            assert(current.history.take(kept)[i] == current.history[i]);
                        }
                    }
                    pending = newest_first(group);
                }
            },
        }
        proof {
            if replaying {
                assert(engine_state(*grid, *command_state) == replay_one(current, request));
                pending = pending.drop_last();
            } else {
                assert(drain(engine_state(*grid, *command_state), pending) == apply_command(
                    current,
                    request,
                ));
                remaining = remaining - 1;
            }
        }
    }
    command_state.transaction = command_state.transaction + 1;
}

} // verus!
