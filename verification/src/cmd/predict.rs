//! A model of the edit sequence: how often each edit followed each pair of
//! edits before it.

use crate::cmd::predict::iter::{pair_windows, sorted_by_count, triple_windows};
use crate::cmd::predict::model::{
    bump, count_of, empty_table, is_ranking, learn, model_wf, observe, observe_all, train,
    trim, window_count, PredictModel, Table, DEPTH,
};
use crate::cmd::predict::table::{row_counts, table_rows, CountRow, CountTable};
use crate::cmd::{command_views, Command};
use std::collections::VecDeque;
use vstd::prelude::*;

pub mod iter;
pub mod laws;
pub mod model;
pub mod table;

verus! {

/// One observed edit: how far its layer lies from the layer of the edit
/// before it, and its tile type.
#[derive(Clone, Copy, Debug, PartialEq, Eq, Structural, Hash)]
pub struct BaseKey {
    pub layer_change: i64,
    pub tile_type: usize,
}

/// The state of the prediction model: the last edits, the frequency table and
/// the running layer.
pub struct PredictState {
    history: VecDeque<BaseKey>,
    table: CountTable,
    last_layer: i32,
    samples: usize,
}

impl View for PredictState {
    type V = PredictModel;

    closed spec fn view(&self) -> PredictModel {
        PredictModel {
            history: self.history@,
            table: table_rows(self.table),
            last_layer: self.last_layer,
        }
    }
}

/// No count of `table` is above `bound`.
pub open spec fn counts_within(table: Table, bound: nat) -> bool {
    forall|context: (BaseKey, BaseKey), outcome: BaseKey| #[trigger]
        count_of(table, context, outcome) <= bound
}

impl PredictState {
    /// How many runs of three edits were counted since the start.
    pub closed spec fn samples(&self) -> nat {
        self.samples as nat
    }

    /// Between ticks the history holds at most `DEPTH` edits, and no count is
    /// above the number of runs that were counted.
    pub open spec fn wf(&self) -> bool {
        &&& model_wf(self@)
        &&& counts_within(self@.table, self.samples())
    }

    /// The state at the start of a session: no history, an empty table, layer 0.
    pub fn new() -> (state: PredictState)
        ensures
            state.wf(),
            state@.history == Seq::<BaseKey>::empty(),
            state@.table == empty_table(),
            state@.last_layer == 0,
            state.samples() == 0,
    {
        PredictState {
            history: VecDeque::new(),
            table: CountTable::new(),
            last_layer: 0,
            samples: 0,
        }
    }

    /// How many runs of three edits were counted since the start.
    pub fn sample_count(&self) -> (n: usize)
        ensures
            n == self.samples(),
    {
        self.samples
    }

    /// The layer of the last `SetTiles` that was seen.
    pub fn last_layer(&self) -> (layer: i32)
        ensures
            layer == self@.last_layer,
    {
        self.last_layer
    }

    /// The edits kept as context, the oldest first.
    pub fn history(&self) -> (history: Vec<BaseKey>)
        ensures
            history@ == self@.history,
    {
        let mut history: Vec<BaseKey> = Vec::new();
        let mut i: usize = 0;
        while i < self.history.len()
            invariant
                i <= self.history@.len(),
                history@ == self.history@.take(i as int),
            decreases self.history@.len() - i,
        {
            history.push(self.history[i]);
            assert(self.history@.take(i + 1) =~= self.history@.take(i as int).push(
                self.history@[i as int],
            ));
            i += 1;
        }
        assert(self.history@.take(self.history@.len() as int) =~= self.history@);
        history
    }

    /// How often `outcome` was counted after `context`.
    pub fn count(&self, context: (BaseKey, BaseKey), outcome: BaseKey) -> (count: usize)
        ensures
            count == count_of(self@.table, context, outcome),
    {
        match self.table.get(context) {
            Some(row) => match row.get(outcome) {
                Some(count) => count,
                None => 0,
            },
            None => 0,
        }
    }

    /// The outcomes that were counted after `context`, each with its count,
    /// those counted more often first; `None` when the context was never seen.
    /// Among outcomes with the same count the order is not fixed.
    pub fn predict(&self, context: (BaseKey, BaseKey)) -> (ranked: Option<Vec<(BaseKey, usize)>>)
        ensures
            match ranked {
                Some(ranked) => self@.table.contains_key(context) && is_ranking(
                    ranked@,
                    self@.table[context],
                ),
                None => !self@.table.contains_key(context),
            },
    {
        match self.table.get(context) {
            Some(row) => {
                let entries = row.entries();
                let ranked = rank(entries);
                proof {
                    lemma_ranking_of_entries(entries@, ranked@, row_counts(*row));
                }
                Some(ranked)
            },
            None => None,
        }
    }

    /// The predictions for the contexts that the history ends with: for each
    /// pair of neighbours of the history that the table knows, from the front
    /// to the back, the pair and the ranking of what followed it.
    pub fn predictions(&self) -> (found: Vec<((BaseKey, BaseKey), Vec<(BaseKey, usize)>)>)
        ensures
            found@.len() == known_contexts(self@.history, self@.table).len(),
            forall|i: int|
                0 <= i < found@.len() ==> (#[trigger] found@[i]).0 == known_contexts(
                    self@.history,
                    self@.table,
                )[i] && self@.table.contains_key(found@[i].0) && is_ranking(
                    found@[i].1@,
                    self@.table[found@[i].0],
                ),
    {
        let windows = pair_windows(&self.history);
        let ghost history = self@.history;
        let ghost table = self@.table;
        let mut found: Vec<((BaseKey, BaseKey), Vec<(BaseKey, usize)>)> = Vec::new();
        let mut i: usize = 0;
        let ghost mut covered: int = if history.len() >= 2 {
            1
        } else {
            history.len() as int
        };
        while i < windows.len()
            invariant
                i <= windows@.len(),
                history == self@.history,
                table == self@.table,
                history.len() < 2 ==> windows@.len() == 0 && covered == history.len(),
                history.len() >= 2 ==> windows@.len() == history.len() - 1 && covered == i + 1,
                forall|k: int|
                    0 <= k < windows@.len() ==> #[trigger] windows@[k] == (
                        history[k],
                        history[k + 1],
                    ),
                found@.len() == known_contexts(history.take(covered), table).len(),
                forall|k: int|
                    0 <= k < found@.len() ==> (#[trigger] found@[k]).0 == known_contexts(
                        history.take(covered),
                        table,
                    )[k] && table.contains_key(found@[k].0) && is_ranking(
                        found@[k].1@,
                        table[found@[k].0],
                    ),
            decreases windows@.len() - i,
        {
            let context = windows[i];
            proof {
                let longer = history.take(covered + 1);
                assert(longer.drop_last() =~= history.take(covered));
                assert(longer[longer.len() - 2] == history[i as int]);
                assert(longer[longer.len() - 1] == history[i + 1]);
                covered = covered + 1;
            }
            match self.predict(context) {
                Some(ranked) => {
                    found.push((context, ranked));
                },
                None => {},
            }
            i += 1;
        }
        assert(history.take(covered) =~= history);
        found
    }
}

impl Default for PredictState {
    fn default() -> (state: PredictState)
        ensures
            state.wf(),
            state@.history == Seq::<BaseKey>::empty(),
            state@.table == empty_table(),
            state@.last_layer == 0,
            state.samples() == 0,
    {
        PredictState::new()
    }
}

/// The pairs of neighbours of `history` that `table` has a row for, from the
/// front to the back.
pub open spec fn known_contexts(history: Seq<BaseKey>, table: Table) -> Seq<(BaseKey, BaseKey)>
    decreases history.len(),
{
    if history.len() < 2 {
        Seq::empty()
    } else {
        let n = history.len() as int;
        let context = (history[n - 2], history[n - 1]);
        let before = known_contexts(history.drop_last(), table);
        if table.contains_key(context) {
            before.push(context)
        } else {
            before
        }
    }
}

/// Entries that list a row, in any order that keeps each as often as it
/// was and puts larger counts first, are a ranking of the row.
proof fn lemma_ranking_of_entries(
    entries: Seq<(BaseKey, usize)>,
    ranked: Seq<(BaseKey, usize)>,
    row: Map<BaseKey, nat>,
)
    requires
        forall|i: int, j: int|
            0 <= i < j < entries.len() ==> (#[trigger] entries[i]).0 != (#[trigger] entries[j]).0,
        forall|i: int|
            0 <= i < entries.len() ==> row.contains_key((#[trigger] entries[i]).0)
                && row[entries[i].0] == entries[i].1,
        forall|outcome: BaseKey| #[trigger]
            row.contains_key(outcome) ==> exists|i: int|
                0 <= i < entries.len() && (#[trigger] entries[i]).0 == outcome,
        ranked.to_multiset() == entries.to_multiset(),
        forall|i: int, j: int|
            0 <= i <= j < ranked.len() ==> (#[trigger] ranked[i]).1 >= (#[trigger] ranked[j]).1,
    ensures
        is_ranking(ranked, row),
{
    broadcast use vstd::seq_lib::to_multiset_contains;

    assert forall|i: int| 0 <= i < ranked.len() implies entries.contains(#[trigger] ranked[i]) by {
        assert(ranked.contains(ranked[i]));
        assert(ranked.to_multiset().count(ranked[i]) > 0);
        assert(entries.to_multiset().count(ranked[i]) > 0);
    }
    assert forall|i: int| 0 <= i < entries.len() implies ranked.contains(#[trigger] entries[i]) by {
        assert(entries.contains(entries[i]));
        assert(entries.to_multiset().count(entries[i]) > 0);
        assert(ranked.to_multiset().count(entries[i]) > 0);
    }
    assert(entries.no_duplicates()) by {
        assert forall|i: int, j: int|
            0 <= i < entries.len() && 0 <= j < entries.len() && i != j implies entries[i]
            != entries[j] by {
            if i < j {
                assert(entries[i].0 != entries[j].0);
            } else {
                assert(entries[j].0 != entries[i].0);
            }
        }
    }
    entries.lemma_multiset_has_no_duplicates();
    ranked.lemma_multiset_has_no_duplicates_conv();
    assert forall|i: int, j: int| 0 <= i < j < ranked.len() implies (#[trigger] ranked[i]).0 != (
    #[trigger] ranked[j]).0 by {
        if ranked[i].0 == ranked[j].0 {
            assert(entries.contains(ranked[i]));
            assert(entries.contains(ranked[j]));
            let a = choose|a: int| 0 <= a < entries.len() && entries[a] == ranked[i];
            let b = choose|b: int| 0 <= b < entries.len() && entries[b] == ranked[j];
            if a < b {
                assert(entries[a].0 != entries[b].0);
            }
            if b < a {
                assert(entries[b].0 != entries[a].0);
            }
            assert(ranked[i] == ranked[j]);
        }
    }
    assert forall|i: int| 0 <= i < ranked.len() implies row.contains_key((#[trigger] ranked[i]).0)
        && row[ranked[i].0] == ranked[i].1 by {
        assert(entries.contains(ranked[i]));
        let a = choose|a: int| 0 <= a < entries.len() && entries[a] == ranked[i];
        assert(row.contains_key(entries[a].0));
    }
    assert forall|outcome: BaseKey| #[trigger] row.contains_key(outcome) implies exists|i: int|
        0 <= i < ranked.len() && (#[trigger] ranked[i]).0 == outcome by {
        let a = choose|a: int| 0 <= a < entries.len() && (#[trigger] entries[a]).0 == outcome;
        assert(ranked.contains(entries[a]));
        let i = choose|i: int| 0 <= i < ranked.len() && ranked[i] == entries[a];
        assert(ranked[i].0 == outcome);
    }
}

/// Puts counted outcomes in order of rank: the same entries, each as often as
/// before, those with larger counts first. Among entries with the same count
/// the order is not fixed.
pub fn rank(entries: Vec<(BaseKey, usize)>) -> (ranked: Vec<(BaseKey, usize)>)
    ensures
        ranked@.to_multiset() == entries@.to_multiset(),
        forall|i: int, j: int|
            0 <= i <= j < ranked@.len() ==> (#[trigger] ranked@[i]).1 >= (#[trigger] ranked@[j]).1,
{
    let sorted = sorted_by_count(entries);
    let n = sorted.len();
    let mut ranked: Vec<(BaseKey, usize)> = Vec::new();
    let mut i: usize = 0;
    while i < n
        invariant
            n == sorted@.len(),
            i <= n,
            ranked@.len() == i,
            forall|k: int| 0 <= k < i ==> #[trigger] ranked@[k] == sorted@[n - 1 - k],
        decreases n - i,
    {
        ranked.push(sorted[n - 1 - i]);
        i += 1;
    }
    proof {
        assert(ranked@ =~= sorted@.reverse());
        sorted@.lemma_reverse_to_multiset();
    }
    ranked
}

/// Counts `outcome` once more after `context`.
fn count_once(table: &mut CountTable, context: (BaseKey, BaseKey), outcome: BaseKey)
    requires
        count_of(table_rows(*old(table)), context, outcome) < usize::MAX,
    ensures
        table_rows(*final(table)) == bump(table_rows(*old(table)), context, outcome),
{
    match table.get_mut(context) {
        Some(row) => {
            let count = match row.get(outcome) {
                Some(count) => count + 1,
                None => 1,
            };
            row.insert(outcome, count);
        },
        None => {
            let mut row = CountRow::new();
            row.insert(outcome, 1);
            table.insert(context, row);
        },
    }
}

/// After one more count, the counted pair stands one higher and every other
/// count is as before.
pub proof fn lemma_bump_counts(
    table: Table,
    context: (BaseKey, BaseKey),
    outcome: BaseKey,
    other_context: (BaseKey, BaseKey),
    other_outcome: BaseKey,
)
    ensures
        count_of(bump(table, context, outcome), other_context, other_outcome) == if other_context
            == context && other_outcome == outcome {
            count_of(table, context, outcome) + 1
        } else {
            count_of(table, other_context, other_outcome)
        },
{
}

/// Takes note of the edits of one tick and learns from them: each `SetTiles`
/// of the batch, in arrival order, adds its edit to the history; every run of
/// three neighbours of the grown history is counted in the table; then the
/// history is cut back to its last `DEPTH` edits.
pub fn training_system(predict_state: &mut PredictState, command_events: &Vec<Command>)
    requires
        old(predict_state).wf(),
        old(predict_state).samples() + command_events@.len() <= usize::MAX,
    ensures
        final(predict_state).wf(),
        final(predict_state)@ == train(old(predict_state)@, command_views(command_events@)),
        final(predict_state).samples() == old(predict_state).samples() + window_count(
            observe_all(old(predict_state)@, command_views(command_events@)).history,
        ),
{
    let ghost start = predict_state@;
    let ghost batch = command_views(command_events@);
    let mut i: usize = 0;
    while i < command_events.len()
        invariant
            i <= command_events@.len(),
            batch == command_views(command_events@),
            predict_state.samples() == old(predict_state).samples(),
            predict_state@ == observe_all(start, batch.take(i as int)),
            predict_state@.table == start.table,
            predict_state@.history.len() <= start.history.len() + i,
        decreases command_events@.len() - i,
    {
        let ghost before = predict_state@;
        match &command_events[i] {
            Command::SetTiles { coords, tile_type } => {
                let layer = if coords.len() > 0 {
                    coords[0].layer
                } else {
                    1
                };
                let layer_change = layer as i64 - predict_state.last_layer as i64;
                predict_state.history.push_back(BaseKey { layer_change, tile_type: *tile_type });
                predict_state.last_layer = layer;
            },
            _ => {},
        }
        proof {
            assert(batch.take(i + 1).drop_last() =~= batch.take(i as int));
            assert(batch.take(i + 1).last() == command_events@[i as int]@);
            assert(predict_state@ == observe(before, command_events@[i as int]@));
        }
        i += 1;
    }
    assert(batch.take(command_events@.len() as int) =~= batch);
    let ghost seen = predict_state@.history;
    assert(seen.skip(0) =~= seen);
    if predict_state.history.len() > DEPTH {
        let windows = triple_windows(&predict_state.history);
        let mut w: usize = 0;
        assert(learn(start.table, seen.take(2)) == start.table);
        while w < windows.len()
            invariant
                w <= windows@.len(),
                windows@.len() == seen.len() - 2,
                seen == predict_state@.history,
                predict_state@.last_layer == observe_all(start, batch).last_layer,
                forall|k: int|
                    0 <= k < windows@.len() ==> #[trigger] windows@[k] == (
                        seen[k],
                        seen[k + 1],
                        seen[k + 2],
                    ),
                predict_state@.table == learn(start.table, seen.take(w + 2)),
                predict_state.samples() == old(predict_state).samples() + w,
                old(predict_state).samples() + windows@.len() <= usize::MAX,
                counts_within(predict_state@.table, predict_state.samples()),
            decreases windows@.len() - w,
        {
            let key2 = windows[w];
            let ghost table = predict_state@.table;
            assert(count_of(table, (key2.0, key2.1), key2.2) <= predict_state.samples());
            count_once(&mut predict_state.table, (key2.0, key2.1), key2.2);
            predict_state.samples = predict_state.samples + 1;
            proof {
                let longer = seen.take(w + 3);
                assert(longer.drop_last() =~= seen.take(w + 2));
                assert(longer[longer.len() - 3] == seen[w as int]);
                assert(longer[longer.len() - 2] == seen[w + 1]);
                assert(longer[longer.len() - 1] == seen[w + 2]);
                assert forall|context: (BaseKey, BaseKey), outcome: BaseKey| #[trigger]
                    count_of(predict_state@.table, context, outcome)
                        <= predict_state.samples() by {
                    lemma_bump_counts(table, (key2.0, key2.1), key2.2, context, outcome);
                    assert(count_of(table, context, outcome) <= old(predict_state).samples() + w);
                }
            }
            w += 1;
        }
        assert(seen.take(seen.len() as int) =~= seen);
    }
    while predict_state.history.len() > DEPTH
        invariant
            predict_state@.table == learn(start.table, seen),
            predict_state@.last_layer == observe_all(start, batch).last_layer,
            predict_state.samples() == old(predict_state).samples() + window_count(seen),
            counts_within(predict_state@.table, predict_state.samples()),
            predict_state@.history.len() <= seen.len(),
            seen.len() > DEPTH ==> predict_state@.history.len() >= DEPTH,
            seen.len() <= DEPTH ==> predict_state@.history.len() == seen.len(),
            predict_state@.history == seen.skip(seen.len() - predict_state@.history.len()),
        decreases predict_state@.history.len(),
    {
        let ghost kept = predict_state@.history;
        predict_state.history.pop_front();
        assert(predict_state@.history =~= seen.skip(seen.len() - (kept.len() - 1)));
    }
    assert(predict_state@.history =~= trim(seen));
}

} // verus!
