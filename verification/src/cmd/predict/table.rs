//! The frequency table, kept in hash maps of `bevy::utils`.
//!
//! Verus does not look inside these maps: the map type has a parameter whose
//! bound is private to its crate, so the type cannot be declared, and each map
//! is held in a struct of which Verus reads the name only. What the maps hold
//! has a name, and each function here states over the names what one method
//! of the map does; these statements are taken from the map's documentation,
//! not proved.

use crate::cmd::predict::model::{empty_row, empty_table};
use crate::cmd::predict::BaseKey;
use bevy::utils::HashMap;
use vstd::prelude::*;

verus! {

/// The outcomes counted for one context: a `bevy::utils::HashMap` from the
/// outcome, as its pair of integers, to the count.
#[verifier::external_body]
pub struct CountRow {
    counts: HashMap<(i64, usize), usize>,
}

/// What a row holds: for each outcome that was counted, how often.
pub uninterp spec fn row_counts(row: CountRow) -> Map<BaseKey, nat>;

/// The rows of the table: a `bevy::utils::HashMap` from the context, as its
/// two pairs of integers, to the row of that context.
#[verifier::external_body]
pub struct CountTable {
    rows: HashMap<((i64, usize), (i64, usize)), CountRow>,
}

/// What the table holds: for each context that was seen, the counts of its row.
pub uninterp spec fn table_rows(table: CountTable) -> Map<(BaseKey, BaseKey), Map<BaseKey, nat>>;

impl CountRow {
    /// `HashMap::default`: the new map holds nothing.
    #[verifier::external_body]
    pub(crate) fn new() -> (row: CountRow)
        ensures
            row_counts(row) == empty_row(),
    {
        CountRow { counts: HashMap::default() }
    }

    /// `HashMap::get`: the count stored under the outcome, if there is one.
    #[verifier::external_body]
    pub(crate) fn get(&self, outcome: BaseKey) -> (count: Option<usize>)
        ensures
            match count {
                Some(count) => {
                    &&& row_counts(*self).contains_key(outcome)
                    &&& row_counts(*self)[outcome] == count
                },
                None => !row_counts(*self).contains_key(outcome),
            },
    {
        self.counts.get(&(outcome.layer_change, outcome.tile_type)).copied()
    }

    /// `HashMap::insert`: afterwards the outcome has this count, and every
    /// other outcome is as before.
    #[verifier::external_body]
    pub(crate) fn insert(&mut self, outcome: BaseKey, count: usize)
        ensures
            row_counts(*final(self)) == row_counts(*old(self)).insert(outcome, count as nat),
    {
        self.counts.insert((outcome.layer_change, outcome.tile_type), count);
    }

    /// `HashMap::iter`: every stored pair of outcome and count exactly once,
    /// in an order that the map chooses.
    #[verifier::external_body]
    pub(crate) fn entries(&self) -> (entries: Vec<(BaseKey, usize)>)
        ensures
            forall|i: int, j: int|
                0 <= i < j < entries@.len()
                    ==> (#[trigger] entries@[i]).0 != (#[trigger] entries@[j]).0,
            forall|i: int|
                0 <= i < entries@.len() ==> {
                    &&& row_counts(*self).contains_key((#[trigger] entries@[i]).0)
                    &&& row_counts(*self)[entries@[i].0] == entries@[i].1
                },
            forall|outcome: BaseKey| #[trigger]
                row_counts(*self).contains_key(outcome) ==> exists|i: int|
                    0 <= i < entries@.len() && (#[trigger] entries@[i]).0 == outcome,
    {
        self.counts.iter().map(
            |(outcome, count)| (BaseKey { layer_change: outcome.0, tile_type: outcome.1 }, *count),
        ).collect()
    }
}

impl CountTable {
    /// `HashMap::default`: the new map holds nothing.
    #[verifier::external_body]
    pub(crate) fn new() -> (table: CountTable)
        ensures
            table_rows(table) == empty_table(),
    {
        CountTable { rows: HashMap::default() }
    }

    /// `HashMap::get`: the row stored under the context, if there is one.
    #[verifier::external_body]
    pub(crate) fn get(&self, context: (BaseKey, BaseKey)) -> (row: Option<&CountRow>)
        ensures
            match row {
                Some(row) => {
                    &&& table_rows(*self).contains_key(context)
                    &&& table_rows(*self)[context] == row_counts(*row)
                },
                None => !table_rows(*self).contains_key(context),
            },
    {
        self.rows.get(
            &(
                (context.0.layer_change, context.0.tile_type),
                (context.1.layer_change, context.1.tile_type),
            ),
        )
    }

    /// `HashMap::get_mut`: the row stored under the context, if there is one,
    /// to be changed in place. What the row holds when the caller is done
    /// with it is what the table then holds under the context; the other
    /// rows stay as they are.
    #[verifier::external_body]
    pub(crate) fn get_mut(&mut self, context: (BaseKey, BaseKey)) -> (row: Option<&mut CountRow>)
        ensures
            match row {
                Some(row) => {
                    &&& table_rows(*old(self)).contains_key(context)
                    &&& table_rows(*old(self))[context] == row_counts(*row)
                    &&& table_rows(*final(self)) == table_rows(*old(self)).insert(
                        context,
                        row_counts(*final(row)),
                    )
                },
                None => {
                    &&& !table_rows(*old(self)).contains_key(context)
                    &&& table_rows(*final(self)) == table_rows(*old(self))
                },
            },
    {
        self.rows.get_mut(
            &(
                (context.0.layer_change, context.0.tile_type),
                (context.1.layer_change, context.1.tile_type),
            ),
        )
    }

    /// `HashMap::insert`: afterwards the context has this row, and every other
    /// context is as before.
    #[verifier::external_body]
    pub(crate) fn insert(&mut self, context: (BaseKey, BaseKey), row: CountRow)
        ensures
            table_rows(*final(self)) == table_rows(*old(self)).insert(context, row_counts(row)),
    {
        self.rows.insert(
            (
                (context.0.layer_change, context.0.tile_type),
                (context.1.layer_change, context.1.tile_type),
            ),
            row,
        );
    }
}

} // verus!
