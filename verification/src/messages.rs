//! What a committed transaction is reported as.

use vstd::prelude::*;

use crate::data_key::{DataKey, Key, RowId};
use crate::ordered::ascending;

verus! {

/// What was done with a row.
#[derive(Debug, Clone, Copy, PartialEq, Eq, Structural)]
pub enum Operation {
    Delete,
    Insert,
}

/// A row inserted into a table, or deleted from it.
#[derive(Debug, PartialEq, Eq)]
pub struct Write {
    pub operation: Operation,
    pub set_id: u32,
    pub data_key: DataKey,
}

/// The writes of a transaction, in order.
#[derive(Debug, PartialEq, Eq)]
pub struct Transaction {
    pub writes: Vec<Write>,
}

/// What a write is.
pub struct WriteModel {
    pub operation: Operation,
    pub set_id: u32,
    pub data_key: Key,
}

impl View for Write {
    type V = WriteModel;

    open spec fn view(&self) -> WriteModel {
        WriteModel { operation: self.operation, set_id: self.set_id, data_key: self.data_key@ }
    }
}

/// What each of `s` is.
pub open spec fn writes_model(s: Seq<Write>) -> Seq<WriteModel> {
    s.map_values(|w: Write| w@)
}

impl View for Transaction {
    type V = Seq<WriteModel>;

    open spec fn view(&self) -> Seq<WriteModel> {
        writes_model(self.writes@)
    }
}

/// One write to table `t` for each of `keys`, in their order.
pub open spec fn writes_in_order(operation: Operation, t: u32, keys: Seq<Key>) -> Seq<WriteModel> {
    keys.map_values(|k: Key| WriteModel { operation, set_id: t, data_key: k })
}

/// One write to table `t` for each of `keys`, in the order of the keys.
pub open spec fn writes_of(operation: Operation, t: u32, keys: Set<Key>) -> Seq<WriteModel> {
    writes_in_order(operation, t, ascending::<RowId>(keys))
}

} // verus!
