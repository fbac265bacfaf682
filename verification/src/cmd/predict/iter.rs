//! Windows over the history and sorting of counts, done by `itertools`.
//!
//! Verus does not read `itertools`. Each function here makes one call into it
//! and states what the call returns as its documentation has it.

use crate::cmd::predict::BaseKey;
use itertools::Itertools;
use std::collections::VecDeque;
use vstd::prelude::*;

verus! {

/// `Itertools::tuple_windows` with tuples of three: every run of three
/// neighbours of `history`, from the front to the back; none when `history`
/// has fewer than three entries.
#[verifier::external_body]
pub(crate) fn triple_windows(history: &VecDeque<BaseKey>) -> (windows: Vec<
    (BaseKey, BaseKey, BaseKey),
>)
    ensures
        history@.len() < 3 ==> windows@.len() == 0,
        history@.len() >= 3 ==> windows@.len() == history@.len() - 2,
        forall|i: int|
            0 <= i < windows@.len() ==> #[trigger] windows@[i] == (
                history@[i],
                history@[i + 1],
                history@[i + 2],
            ),
{
    history.iter().cloned().tuple_windows::<(BaseKey, BaseKey, BaseKey)>().collect()
}

/// `Itertools::tuple_windows` with tuples of two: every pair of neighbours of
/// `history`, from the front to the back; none when `history` has fewer than
/// two entries.
#[verifier::external_body]
pub(crate) fn pair_windows(history: &VecDeque<BaseKey>) -> (windows: Vec<(BaseKey, BaseKey)>)
    ensures
        history@.len() < 2 ==> windows@.len() == 0,
        history@.len() >= 2 ==> windows@.len() == history@.len() - 1,
        forall|i: int|
            0 <= i < windows@.len() ==> #[trigger] windows@[i] == (history@[i], history@[i + 1]),
{
    history.iter().cloned().tuple_windows::<(BaseKey, BaseKey)>().collect()
}

/// `Itertools::sorted_by_key` with the count as the key: the same entries,
/// each as often as before, in ascending order of count.
#[verifier::external_body]
pub(crate) fn sorted_by_count(entries: Vec<(BaseKey, usize)>) -> (sorted: Vec<(BaseKey, usize)>)
    ensures
        sorted@.to_multiset() == entries@.to_multiset(),
        forall|i: int, j: int|
            0 <= i <= j < sorted@.len() ==> (#[trigger] sorted@[i]).1 <= (#[trigger] sorted@[j]).1,
{
    entries.into_iter().sorted_by_key(|entry| entry.1).collect()
}

} // verus!
