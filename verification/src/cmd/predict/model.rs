//! The prediction model as a mathematical state machine.

use crate::cmd::model::CommandView;
use crate::cmd::predict::BaseKey;
use crate::iso::IsoCoord;
use vstd::prelude::*;

verus! {

/// How many edits form a context.
pub const DEPTH: usize = 2;

/// The frequency table: for each context of two edits, how often each edit
/// followed it.
pub type Table = Map<(BaseKey, BaseKey), Map<BaseKey, nat>>;

/// The row in which nothing was counted yet.
pub open spec fn empty_row() -> Map<BaseKey, nat> {
    Map::empty()
}

/// The table in which nothing was counted yet.
pub open spec fn empty_table() -> Table {
    Map::empty()
}

/// The state of the prediction model.
pub struct PredictModel {
    /// The edits seen last, the oldest first.
    pub history: Seq<BaseKey>,
    pub table: Table,
    /// The layer of the last `SetTiles` that was seen.
    pub last_layer: i32,
}

/// The layer that a `SetTiles` counts for: that of its first coordinate, or 1
/// when it names none.
pub open spec fn layer_of(coords: Seq<IsoCoord>) -> i32 {
    if coords.len() > 0 {
        coords[0].layer
    } else {
        1
    }
}

/// The edit that a `SetTiles` stands for when the one before it was on
/// `last_layer`.
pub open spec fn key_of(last_layer: i32, coords: Seq<IsoCoord>, tile_type: usize) -> BaseKey {
    BaseKey { layer_change: (layer_of(coords) - last_layer) as i64, tile_type }
}

/// Takes note of one command: a `SetTiles` adds its edit to the history and
/// sets the running layer; the other commands leave no trace.
pub open spec fn observe(model: PredictModel, command: CommandView) -> PredictModel {
    match command {
        CommandView::SetTiles { coords, tile_type } => PredictModel {
            history: model.history.push(key_of(model.last_layer, coords, tile_type)),
            last_layer: layer_of(coords),
            ..model
        },
        CommandView::Despawn(coord) => model,
        CommandView::Undo => model,
    }
}

/// Takes note of the commands of a batch in the order in which they arrived.
pub open spec fn observe_all(model: PredictModel, batch: Seq<CommandView>) -> PredictModel
    decreases batch.len(),
{
    if batch.len() == 0 {
        model
    } else {
        observe(observe_all(model, batch.drop_last()), batch.last())
    }
}

/// How often `outcome` was counted after `context`; 0 when never.
pub open spec fn count_of(table: Table, context: (BaseKey, BaseKey), outcome: BaseKey) -> nat {
    if table.contains_key(context) && table[context].contains_key(outcome) {
        table[context][outcome]
    } else {
        0
    }
}

/// The row of `context`, empty when the context was never seen.
pub open spec fn row_of(table: Table, context: (BaseKey, BaseKey)) -> Map<BaseKey, nat> {
    if table.contains_key(context) {
        table[context]
    } else {
        Map::empty()
    }
}

/// Counts `outcome` once more after `context`.
pub open spec fn bump(table: Table, context: (BaseKey, BaseKey), outcome: BaseKey) -> Table {
    table.insert(
        context,
        row_of(table, context).insert(outcome, count_of(table, context, outcome) + 1),
    )
}

/// How many runs of three neighbours a history has.
pub open spec fn window_count(history: Seq<BaseKey>) -> nat {
    if history.len() > DEPTH {
        (history.len() - DEPTH) as nat
    } else {
        0
    }
}

/// Counts every run of three neighbours of `history`, from the front to the
/// back: the third edit once more after the first two.
pub open spec fn learn(table: Table, history: Seq<BaseKey>) -> Table
    decreases history.len(),
{
    if history.len() <= DEPTH {
        table
    } else {
        let n = history.len() as int;
        bump(learn(table, history.drop_last()), (history[n - 3], history[n - 2]), history[n - 1])
    }
}

/// The last `DEPTH` edits of a history, or all of it when it is shorter.
pub open spec fn trim(history: Seq<BaseKey>) -> Seq<BaseKey> {
    if history.len() > DEPTH {
        history.skip(history.len() - DEPTH)
    } else {
        history
    }
}

/// One tick of training: the batch is taken note of, every run of three
/// neighbours of the grown history is counted, and the history is cut back
/// to its last `DEPTH` edits.
pub open spec fn train(model: PredictModel, batch: Seq<CommandView>) -> PredictModel {
    let seen = observe_all(model, batch);
    PredictModel {
        history: trim(seen.history),
        table: learn(model.table, seen.history),
        last_layer: seen.last_layer,
    }
}

/// Between ticks the history holds at most `DEPTH` edits.
pub open spec fn model_wf(model: PredictModel) -> bool {
    model.history.len() <= DEPTH
}

/// `ranked` lists the outcomes of `row`: each outcome once with its count,
/// those counted more often first.
pub open spec fn is_ranking(ranked: Seq<(BaseKey, usize)>, row: Map<BaseKey, nat>) -> bool {
    &&& forall|i: int, j: int|
        0 <= i < j < ranked.len() ==> (#[trigger] ranked[i]).0 != (#[trigger] ranked[j]).0
    &&& forall|i: int|
        0 <= i < ranked.len() ==> row.contains_key((#[trigger] ranked[i]).0) && row[ranked[i].0]
            == ranked[i].1
    &&& forall|outcome: BaseKey| #[trigger]
        row.contains_key(outcome) ==> exists|i: int|
            0 <= i < ranked.len() && (#[trigger] ranked[i]).0 == outcome
    &&& forall|i: int, j: int|
        0 <= i <= j < ranked.len() ==> (#[trigger] ranked[i]).1 >= (#[trigger] ranked[j]).1
}

} // verus!
