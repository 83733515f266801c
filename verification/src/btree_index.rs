//! Indexes: which rows of a table hold which value in a column.

use vstd::prelude::*;

use crate::data_key::{lists_in_order, row_ids, Key, RowId};
use crate::error::{DBError, Fault};
use crate::ids::IndexId;
use crate::ordered::{lemma_filter_step, lemma_in_key_order_part, lemma_take_set, OrdMap};
use crate::value::{canonical, AlgebraicValue, ProductValue, Row, Value};

verus! {

/// What an index is.
#[verifier::ext_equal]
pub struct IndexModel {
    pub index_id: u32,
    pub table_id: u32,
    pub col_id: u32,
    pub name: Seq<char>,
    pub is_unique: bool,
    /// What stands for the value in the column, for each row.
    pub entries: Map<Key, Value>,
}

/// What stands for the values of column `c`, for each of `rows` that has one.
pub open spec fn column_of(rows: Map<Key, Row>, c: u32) -> Map<Key, Value> {
    Map::new(
        |k: Key| rows.contains_key(k) && c < rows[k].len(),
        |k: Key| canonical(rows[k][c as int]),
    )
}

/// No two rows hold equal values.
pub open spec fn one_row_per_value(entries: Map<Key, Value>) -> bool {
    forall|j: Key, k: Key|
        #![trigger entries.contains_key(j), entries.contains_key(k)]
        entries.contains_key(j) && entries.contains_key(k) && j != k ==> entries[j] != entries[k]
}

impl IndexModel {
    /// The index with one row more.
    pub open spec fn with_row(self, k: Key, row: Row) -> IndexModel {
        IndexModel {
            entries: if self.col_id < row.len() {
                self.entries.insert(k, canonical(row[self.col_id as int]))
            } else {
                self.entries.remove(k)
            },
            ..self
        }
    }

    /// The index with all of `rows` besides what it holds.
    pub open spec fn with_rows(self, rows: Map<Key, Row>) -> IndexModel {
        IndexModel {
            entries: self.entries.remove_keys(rows.dom()).union_prefer_right(
                column_of(rows, self.col_id),
            ),
            ..self
        }
    }

    /// The index without the rows in `gone`.
    pub open spec fn without(self, gone: Set<Key>) -> IndexModel {
        IndexModel { entries: self.entries.remove_keys(gone), ..self }
    }

    /// The index with nothing in it.
    pub open spec fn emptied(self) -> IndexModel {
        IndexModel { entries: Map::empty(), ..self }
    }

    /// The rows that hold a value equal to `v`.
    pub open spec fn holding(self, v: Value) -> Set<Key> {
        Set::new(|k: Key| self.entries.contains_key(k) && self.entries[k] == canonical(v))
    }

    /// The index is unique, and a row that is not in `gone` holds a value equal to
    /// that of `row`.
    pub open spec fn conflicts(self, row: Row, gone: Set<Key>) -> bool {
        &&& self.is_unique
        &&& self.col_id < row.len()
        &&& exists|k: Key|
            #[trigger] self.holding(row[self.col_id as int]).contains(k) && !gone.contains(k)
    }

    /// The index holds every row of `rows` that has the column.
    pub open spec fn covers(self, rows: Map<Key, Row>) -> bool {
        forall|k: Key|
            #![trigger rows.contains_key(k)]
            rows.contains_key(k) && self.col_id < rows[k].len() ==> self.entries.contains_key(k)
                && self.entries[k] == canonical(rows[k][self.col_id as int])
    }
}

/// The index of a column.
pub struct BTreeIndex {
    pub index_id: IndexId,
    pub table_id: u32,
    pub col_id: u32,
    pub name: String,
    pub is_unique: bool,
    pub idx: OrdMap<RowId, AlgebraicValue>,
}

impl View for BTreeIndex {
    type V = IndexModel;

    open spec fn view(&self) -> IndexModel {
        IndexModel {
            index_id: self.index_id.0,
            table_id: self.table_id,
            col_id: self.col_id,
            name: self.name@,
            is_unique: self.is_unique,
            entries: self.idx@.map_values(|v: AlgebraicValue| canonical(v@)),
        }
    }
}

impl BTreeIndex {
    pub open spec fn wf(&self) -> bool {
        self.idx.wf()
    }

    pub fn new(
        index_id: IndexId,
        table_id: u32,
        col_id: u32,
        name: String,
        is_unique: bool,
    ) -> (r: Self)
        ensures
            r.wf(),
            r@ == (IndexModel {
                index_id: index_id.0,
                table_id,
                col_id,
                name: name@,
                is_unique,
                entries: Map::empty(),
            }),
    {
        let r = BTreeIndex { index_id, table_id, col_id, name, is_unique, idx: OrdMap::new() };
        assert(r@.entries =~= Map::<Key, Value>::empty());
        r
    }

    /// An empty index of the same column.
    pub fn emptied(&self) -> (r: Self)
        ensures
            r.wf(),
            r@ == self@.emptied(),
    {
        BTreeIndex::new(
            self.index_id,
            self.table_id,
            self.col_id,
            self.name.clone(),
            self.is_unique,
        )
    }

    /// Takes in a row, where it has the column, in the place of what stood under its id.
    pub fn insert(&mut self, row_id: &RowId, row: &ProductValue)
        requires
            old(self).wf(),
        ensures
            final(self).wf(),
            final(self)@ == old(self)@.with_row(row_id@, row@),
    {
        if (self.col_id as usize) < row.elements.len() {
            let v = row.elements[self.col_id as usize].clone();
            let ghost value = canonical(v@);
            self.idx.insert(row_id.clone(), v);
            assert(self@.entries =~= old(self)@.entries.insert(row_id@, value));
        } else {
            self.idx.remove(row_id);
            assert(self@.entries =~= old(self)@.entries.remove(row_id@));
        }
    }

    /// Lets go of a row.
    pub fn delete(&mut self, row_id: &RowId)
        requires
            old(self).wf(),
        ensures
            final(self).wf(),
            final(self)@ == old(self)@.without(set![row_id@]),
    {
        self.idx.remove(row_id);
        assert(self@.entries =~= old(self)@.entries.remove_keys(set![row_id@]));
    }

    /// The rows that hold a value equal to `value`, in the order of their ids.
    pub fn seek(&self, value: &AlgebraicValue) -> (r: Vec<RowId>)
        requires
            self.wf(),
        ensures
            lists_in_order(r@, self@.holding(value@)),
    {
        let ghost ks = self.idx.keys();
        let ghost p = |k: Key| self@.entries[k] == canonical(value@);
        proof {
            self.idx.lemma_keys();
            reveal(Seq::filter);
        }
        let mut r: Vec<RowId> = Vec::new();
        assert(row_ids(r@) =~= ks.take(0).filter(p));
        let n: usize = self.idx.len();
        for i in 0..n
            invariant
                n == self.idx.keys().len(),
                self.wf(),
                ks == self.idx.keys(),
                p == (|k: Key| self@.entries[k] == canonical(value@)),
                forall|i: int| 0 <= i < ks.len() ==> self.idx@.contains_key(#[trigger] ks[i]),
                row_ids(r@) == ks.take(i as int).filter(p),
        {
            let ghost before = r@;
            proof {
                lemma_filter_step(ks, p, i as int);
                assert(self.idx@.contains_key(ks[i as int]));
            }
            if self.idx.value_at(i).same(value) {
                r.push(self.idx.key_at(i).clone());
                assert(row_ids(r@) =~= row_ids(before).push(ks[i as int]));
            }
        }
        proof {
            assert(ks.take(ks.len() as int) =~= ks);
            assert forall|k: Key| self@.holding(value@).contains(k) <==> ks.contains(k) && p(k) by {
                if ks.contains(k) {
                    let i = choose|i: int| 0 <= i < ks.len() && ks[i] == k;
                    assert(self.idx@.contains_key(ks[i]));
                }
            }
            lemma_in_key_order_part::<RowId, Value>(
                ks,
                self@.entries,
                p,
                self@.holding(value@),
            );
        }
        r
    }

    /// The rows that stand in the way of `row`: none, where the index is not unique.
    pub fn get_rows_that_violate_unique_constraint(&self, row: &ProductValue) -> (r: Option<
        Vec<RowId>,
    >)
        requires
            self.wf(),
        ensures
            match r {
                Some(ids) => {
                    &&& self.is_unique
                    &&& self.col_id < row@.len()
                    &&& lists_in_order(ids@, self@.holding(row@[self.col_id as int]))
                },
                None => !self.is_unique || self.col_id >= row@.len(),
            },
    {
        if self.is_unique && (self.col_id as usize) < row.elements.len() {
            Some(self.seek(&row.elements[self.col_id as usize]))
        } else {
            None
        }
    }

    /// Whether `row` would break the uniqueness of the index.
    pub fn violates_unique_constraint(&self, row: &ProductValue) -> (r: bool)
        requires
            self.wf(),
        ensures
            r == self@.conflicts(row@, Set::empty()),
    {
        if self.is_unique && (self.col_id as usize) < row.elements.len() {
            assert(row@[self.col_id as int] == row.elements@[self.col_id as int]@);
            self.contains_any(&row.elements[self.col_id as usize])
        } else {
            false
        }
    }

    /// Whether some row holds a value equal to `value`.
    pub fn contains_any(&self, value: &AlgebraicValue) -> (r: bool)
        requires
            self.wf(),
        ensures
            r == exists|k: Key| #[trigger] self@.holding(value@).contains(k),
    {
        let ghost ks = self.idx.keys();
        proof {
            self.idx.lemma_keys();
        }
        let n: usize = self.idx.len();
        for i in 0..n
            invariant
                n == self.idx.keys().len(),
                self.wf(),
                ks == self.idx.keys(),
                forall|i: int| 0 <= i < ks.len() ==> self.idx@.contains_key(#[trigger] ks[i]),
                forall|j: int| 0 <= j < i ==> self@.entries[#[trigger] ks[j]] != canonical(value@),
        {
            assert(self.idx@.contains_key(ks[i as int]));
            if self.idx.value_at(i).same(value) {
                assert(self@.holding(value@).contains(ks[i as int]));
                return true;
            }
        }
        assert forall|k: Key| !(#[trigger] self@.holding(value@).contains(k)) by {
            if self@.entries.contains_key(k) {
                assert(ks.contains(k));
                let i = choose|i: int| 0 <= i < ks.len() && ks[i] == k;
                assert(self@.entries[ks[i]] != canonical(value@));
            }
        }
        false
    }

    /// Takes in all of `rows`; if one of them lacks the column, none.
    pub fn build_from_rows(&mut self, rows: &OrdMap<RowId, ProductValue>) -> (r: Result<
        (),
        DBError,
    >)
        requires
            old(self).wf(),
            rows.wf(),
        ensures
            final(self).wf(),
            match r {
                Ok(_) => {
                    &&& all_have_column(rows_model(rows@), old(self)@.col_id)
                    &&& final(self)@ == old(self)@.with_rows(rows_model(rows@))
                },
                Err(e) => {
                    &&& !all_have_column(rows_model(rows@), old(self)@.col_id)
                    &&& e@ == Fault::InvalidField(old(self)@.col_id)
                    &&& final(self)@ == old(self)@
                },
            },
    {
        let ghost ks = rows.keys();
        let ghost m = rows_model(rows@);
        proof {
            rows.lemma_keys();
        }
        let n: usize = rows.len();
        for i in 0..n
            invariant
                n == rows.keys().len(),
                self@ == old(self)@,
                self.wf(),
                rows.wf(),
                ks == rows.keys(),
                m == rows_model(rows@),
                forall|i: int| 0 <= i < ks.len() ==> rows@.contains_key(#[trigger] ks[i]),
                forall|j: int| 0 <= j < i ==> self@.col_id < m[#[trigger] ks[j]].len(),
        {
            assert(rows@.contains_key(ks[i as int]));
            let row = rows.value_at(i);
            if (self.col_id as usize) >= row.elements.len() {
                assert(m.contains_key(ks[i as int]) && m[ks[i as int]] == row@);
                return Err(DBError::InvalidField(self.col_id));
            }
        }
        assert forall|k: Key| #[trigger] m.contains_key(k) implies self@.col_id < m[k].len() by {
            assert(ks.contains(k));
            let i = choose|i: int| 0 <= i < ks.len() && ks[i] == k;
            assert(self@.col_id < m[ks[i]].len());
        }
        let ghost c = self@.col_id;
        assert(self@.entries =~= old(self)@.with_rows(m.restrict(ks.take(0).to_set())).entries);
        let n: usize = rows.len();
        for i in 0..n
            invariant
                n == rows.keys().len(),
                self.wf(),
                rows.wf(),
                ks == rows.keys(),
                m == rows_model(rows@),
                c == old(self)@.col_id,
                all_have_column(m, c),
                forall|i: int| 0 <= i < ks.len() ==> rows@.contains_key(#[trigger] ks[i]),
                self@ == old(self)@.with_rows(m.restrict(ks.take(i as int).to_set())),
        {
            let k = rows.key_at(i);
            let row = rows.value_at(i);
            proof {
                assert(rows@.contains_key(ks[i as int]));
                assert(m.contains_key(ks[i as int]));
            }
            self.insert(k, row);
            proof {
                let small = m.restrict(ks.take(i as int).to_set());
                let big = m.restrict(ks.take(i + 1).to_set());
                lemma_take_set(ks, i as int);
                assert(big =~= small.insert(ks[i as int], m[ks[i as int]]));
                assert(self@.entries =~= old(self)@.with_rows(big).entries);
            }
        }
        proof {
            assert(ks.take(ks.len() as int) =~= ks);
            assert(m.restrict(ks.to_set()) =~= m);
        }
        Ok(())
    }
}

/// What the rows of a table are.
pub open spec fn rows_model(rows: Map<Key, ProductValue>) -> Map<Key, Row> {
    rows.map_values(|r: ProductValue| r@)
}

/// Every one of `rows` has column `c`.
pub open spec fn all_have_column(rows: Map<Key, Row>, c: u32) -> bool {
    forall|k: Key| #[trigger] rows.contains_key(k) ==> c < rows[k].len()
}

} // verus!
