//! What holds of the prediction model over whole ticks.

use crate::cmd::model::CommandView;
use crate::cmd::predict::model::{
    count_of, learn, model_wf, observe, observe_all, train, trim, PredictModel, Table, DEPTH,
};
use crate::cmd::predict::BaseKey;
use vstd::prelude::*;

verus! {

/// A tick without commands leaves the prediction model as it is: history,
/// table and running layer.
pub proof fn law_empty_batch_trains_nothing(model: PredictModel)
    requires
        model_wf(model),
    ensures
        train(model, Seq::empty()) == model,
{
}

/// Training keeps the history within `DEPTH` edits, whatever the batch.
pub proof fn law_train_keeps_wf(model: PredictModel, batch: Seq<CommandView>)
    ensures
        model_wf(train(model, batch)),
{
}

/// How often `outcome` follows `context` among the runs of three neighbours
/// of `history`.
pub open spec fn occurrences(
    history: Seq<BaseKey>,
    context: (BaseKey, BaseKey),
    outcome: BaseKey,
) -> nat
    decreases history.len(),
{
    if history.len() <= DEPTH {
        0
    } else {
        let n = history.len() as int;
        let here: nat = if (history[n - 3], history[n - 2]) == context && history[n - 1]
            == outcome {
            1
        } else {
            0
        };
        occurrences(history.drop_last(), context, outcome) + here
    }
}

/// Counts are determined by the edits: learning a history raises each count
/// by the number of times that the outcome follows the context in it, so a
/// run of three edits that occurs twice is counted twice.
pub proof fn law_counts_are_occurrences(
    table: Table,
    history: Seq<BaseKey>,
    context: (BaseKey, BaseKey),
    outcome: BaseKey,
)
    ensures
        count_of(learn(table, history), context, outcome) == count_of(table, context, outcome)
            + occurrences(history, context, outcome),
    decreases history.len(),
{
    if history.len() > DEPTH {
        law_counts_are_occurrences(table, history.drop_last(), context, outcome);
    }
}

/// A model that has seen nothing yet and whose running layer is `last_layer`.
pub open spec fn blank(last_layer: i32) -> PredictModel {
    PredictModel { history: Seq::empty(), table: Map::empty(), last_layer }
}

/// Taking note of a batch appends edits that depend on the batch and the
/// running layer alone; the table is not touched.
pub proof fn lemma_observe_all_appends(model: PredictModel, batch: Seq<CommandView>)
    ensures
        observe_all(model, batch) == (PredictModel {
            history: model.history + observe_all(blank(model.last_layer), batch).history,
            table: model.table,
            last_layer: observe_all(blank(model.last_layer), batch).last_layer,
        }),
    decreases batch.len(),
{
    let fresh = blank(model.last_layer);
    if batch.len() == 0 {
        assert(model.history + fresh.history =~= model.history);
    } else {
        lemma_observe_all_appends(model, batch.drop_last());
        let before = observe_all(model, batch.drop_last());
        let fresh_before = observe_all(fresh, batch.drop_last());
        let after = observe(before, batch.last());
        let fresh_after = observe(fresh_before, batch.last());
        assert(after.history =~= model.history + fresh_after.history);
    }
}

/// Taking note of two batches one after the other is taking note of both in
/// one.
pub proof fn lemma_observe_all_concat(
    model: PredictModel,
    first: Seq<CommandView>,
    second: Seq<CommandView>,
)
    ensures
        observe_all(model, first + second) == observe_all(observe_all(model, first), second),
    decreases second.len(),
{
    if second.len() == 0 {
        assert(first + second =~= first);
    } else {
        lemma_observe_all_concat(model, first, second.drop_last());
        assert((first + second).drop_last() =~= first + second.drop_last());
        assert((first + second).last() == second.last());
    }
}

/// Cutting a history back before it grows does not change what is kept after.
pub proof fn lemma_trim_concat(history: Seq<BaseKey>, added: Seq<BaseKey>)
    ensures
        trim(trim(history) + added) == trim(history + added),
{
    assert(trim(trim(history) + added) =~= trim(history + added));
}

/// Learning a history and then its last edits with more appended counts the
/// same runs as learning all of it at once.
pub proof fn lemma_learn_concat(table: Table, history: Seq<BaseKey>, added: Seq<BaseKey>)
    ensures
        learn(learn(table, history), trim(history) + added) == learn(table, history + added),
    decreases added.len(),
{
    if added.len() == 0 {
        assert(trim(history) + added =~= trim(history));
        assert(history + added =~= history);
    } else {
        let whole = history + added;
        let short = trim(history) + added;
        lemma_learn_concat(table, history, added.drop_last());
        assert(whole.drop_last() =~= history + added.drop_last());
        assert(short.drop_last() =~= trim(history) + added.drop_last());
        if whole.len() > DEPTH {
            let n = whole.len() as int;
            let m = short.len() as int;
            assert(short[m - 1] == whole[n - 1]);
            assert(short[m - 2] == whole[n - 2]);
            assert(short[m - 3] == whole[n - 3]);
        }
    }
}

/// The model does not depend on how the edits are spread over ticks:
/// training on one batch and then on another leaves the model that training
/// on both in one tick leaves.
pub proof fn law_training_ignores_tick_boundaries(
    model: PredictModel,
    first: Seq<CommandView>,
    second: Seq<CommandView>,
)
    ensures
        train(train(model, first), second) == train(model, first + second),
{
    let seen_first = observe_all(model, first);
    let trained = train(model, first);
    lemma_observe_all_concat(model, first, second);
    lemma_observe_all_appends(seen_first, second);
    lemma_observe_all_appends(trained, second);
    let added = observe_all(blank(seen_first.last_layer), second).history;
    lemma_trim_concat(seen_first.history, added);
    lemma_learn_concat(model.table, seen_first.history, added);
}

} // verus!
