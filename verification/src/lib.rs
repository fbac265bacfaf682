//! The editing engine of an isometric tile-map editor: a grid of tiles,
//! commands with grouped undo, and a model that learns the edit sequence.

use crate::cmd::model::{tick, CommandView, UndoEntryView};
use crate::cmd::predict::model::{empty_table, observe_all, train, window_count};
use crate::cmd::predict::{training_system, BaseKey, PredictState};
use crate::cmd::{apply_commands_system, command_views, engine_state, Command, CommandState};
use crate::iso::{Grid, IsoCoord};
use vstd::prelude::*;

pub mod cmd;
pub mod input;
pub mod iso;

verus! {

/// The editor's default set of systems with the state that they work on: the
/// grid, the command engine and the prediction model. Each tick hands the
/// same batch of commands to both systems.
pub struct DefaultPlugins {
    pub grid: Grid,
    pub command_state: CommandState,
    pub predict_state: PredictState,
}

impl DefaultPlugins {
    /// Every part is in a state in which a tick may leave it.
    pub open spec fn wf(&self) -> bool {
        &&& self.grid.wf()
        &&& self.command_state.wf()
        &&& self.predict_state.wf()
    }

    /// The counters have room for a tick with `batch_len` commands.
    pub open spec fn has_room(&self, batch_len: nat) -> bool {
        &&& self.command_state.transaction_id() < u64::MAX
        &&& self.predict_state.samples() + batch_len <= usize::MAX
    }

    /// The state at the start of a session: an empty grid, nothing to undo,
    /// nothing learned.
    pub fn build() -> (plugins: DefaultPlugins)
        ensures
            plugins.wf(),
            plugins.grid@ == Map::<IsoCoord, usize>::empty(),
            plugins.command_state.history() == Seq::<UndoEntryView>::empty(),
            plugins.command_state.transaction_id() == 0,
            plugins.predict_state@.history == Seq::<BaseKey>::empty(),
            plugins.predict_state@.table == empty_table(),
            plugins.predict_state@.last_layer == 0,
            plugins.predict_state.samples() == 0,
    {
        DefaultPlugins {
            grid: Grid::new(),
            command_state: CommandState::new(),
            predict_state: PredictState::new(),
        }
    }

    /// Whether the counters have room for a tick with `batch_len` commands.
    pub fn ready_for(&self, batch_len: usize) -> (ready: bool)
        ensures
            ready == self.has_room(batch_len as nat),
    {
        self.command_state.transaction() < u64::MAX && self.predict_state.sample_count()
            <= usize::MAX - batch_len
    }

    /// One tick: the prediction model takes note of the batch, then the
    /// command engine applies it. The model only observes: what the engine
    /// does to the grid and the undo history does not depend on it.
    ///
    /// A tick with an empty batch changes nothing but the transaction counter.
    pub fn update(&mut self, command_events: Vec<Command>)
        requires
            old(self).wf(),
            old(self).has_room(command_events@.len()),
        ensures
            final(self).wf(),
            engine_state(final(self).grid, final(self).command_state) == tick(
                engine_state(old(self).grid, old(self).command_state),
                command_views(command_events@),
            ),
            final(self).predict_state@ == train(
                old(self).predict_state@,
                command_views(command_events@),
            ),
            final(self).predict_state.samples() == old(self).predict_state.samples()
                + window_count(
                observe_all(old(self).predict_state@, command_views(command_events@)).history,
            ),
            command_events@.len() == 0 ==> {
                &&& final(self).grid@ == old(self).grid@
                &&& final(self).command_state.history() == old(self).command_state.history()
                &&& final(self).command_state.transaction_id() == old(
                    self,
                ).command_state.transaction_id() + 1
                &&& final(self).predict_state@ == old(self).predict_state@
                &&& final(self).predict_state.samples() == old(self).predict_state.samples()
            },
    {
        training_system(&mut self.predict_state, &command_events);
        apply_commands_system(&mut self.grid, &mut self.command_state, command_events);
        proof {
            if command_events@.len() == 0 {
                assert(command_views(command_events@) =~= Seq::<CommandView>::empty());
                crate::cmd::laws::law_empty_tick(
                    engine_state(old(self).grid, old(self).command_state),
                );
                crate::cmd::predict::laws::law_empty_batch_trains_nothing(
                    old(self).predict_state@,
                );
            }
        }
    }
}

} // verus!
