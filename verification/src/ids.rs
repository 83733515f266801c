//! The ids by which tables, columns, indexes and sequences are known.

use vstd::prelude::*;

verus! {

#[derive(Debug, Clone, Copy, PartialEq, Eq, PartialOrd, Ord, Hash, Structural)]
pub struct TableId(pub u32);

#[derive(Debug, Clone, Copy, PartialEq, Eq, PartialOrd, Ord, Hash, Structural)]
pub struct ColId(pub u32);

#[derive(Debug, Clone, Copy, PartialEq, Eq, PartialOrd, Ord, Hash, Structural)]
pub struct IndexId(pub u32);

#[derive(Debug, Clone, Copy, PartialEq, Eq, PartialOrd, Ord, Hash, Structural)]
pub struct SequenceId(pub u32);

impl View for TableId {
    type V = u32;

    open spec fn view(&self) -> u32 {
        self.0
    }
}

impl View for IndexId {
    type V = u32;

    open spec fn view(&self) -> u32 {
        self.0
    }
}

impl View for SequenceId {
    type V = u32;

    open spec fn view(&self) -> u32 {
        self.0
    }
}

/// The table of tables.
pub const ST_TABLES_ID: u32 = 0;

/// The table of columns.
pub const ST_COLUMNS_ID: u32 = 1;

/// The table of sequences.
pub const ST_SEQUENCES_ID: u32 = 2;

/// The table of indexes.
pub const ST_INDEXES_ID: u32 = 3;

/// The sequence that table ids are taken from.
pub const TABLE_ID_SEQUENCE_ID: u32 = 0;

/// The sequence that sequence ids are taken from.
pub const SEQUENCE_ID_SEQUENCE_ID: u32 = 1;

/// The sequence that index ids are taken from.
pub const INDEX_ID_SEQUENCE_ID: u32 = 2;

} // verus!
