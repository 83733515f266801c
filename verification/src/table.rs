//! A table: its rows, and the indexes of its columns.

use vstd::prelude::*;

use crate::btree_index::{column_of, one_row_per_value, rows_model, BTreeIndex, IndexModel};
use crate::data_key::{lists_in_order, row_ids, row_key, Key, RowId};
use crate::error::{DBError, Fault, IndexError};
use crate::ids::{ColId, IndexId};
use crate::messages::{writes_in_order, writes_model, writes_of, Operation, Write, WriteModel};
use crate::ordered::{ascends, lemma_filter_step, lemma_take_set, OrdMap, OrderedKey};
use crate::schema::{indexes_model, IndexSchema, IndexSchemaModel, SchemaModel, TableSchema};
use crate::types::{ProductType, RowType};
use crate::value::{canonical, AlgebraicValue, ProductValue, Row};

verus! {

/// What a table is.
#[verifier::ext_equal]
pub struct TableModel {
    pub row_type: RowType,
    pub schema: SchemaModel,
    pub rows: Map<Key, Row>,
    /// The indexes, by their columns.
    pub indexes: Map<u32, IndexModel>,
}

impl TableModel {
    /// Every index holds just the rows of the table.
    pub open spec fn exact(self) -> bool {
        forall|c: u32| #[trigger]
            self.indexes.contains_key(c) ==> self.indexes[c].entries == column_of(self.rows, c)
    }

    /// Every unique index holds a value for one row.
    pub open spec fn unique(self) -> bool {
        forall|c: u32| #[trigger]
            self.indexes.contains_key(c) && self.indexes[c].is_unique ==> one_row_per_value(
                self.indexes[c].entries,
            )
    }

    /// Every index holds just rows among `rows`.
    pub open spec fn holds_only(self, rows: Map<Key, Row>) -> bool {
        forall|c: u32, k: Key|
            #![trigger self.indexes[c].entries.contains_key(k)]
            self.indexes.contains_key(c) && self.indexes[c].entries.contains_key(k) ==> {
                &&& rows.contains_key(k)
                &&& c < rows[k].len()
                &&& self.indexes[c].entries[k] == canonical(rows[k][c as int])
            }
    }

    /// Rows stand under their keys, indexes under their columns, and every index holds every row.
    pub open spec fn inv(self) -> bool {
        &&& self.rows.dom().finite()
        &&& forall|k: Key| #[trigger] self.rows.contains_key(k) ==> row_key(self.rows[k]) == k
        &&& forall|c: u32| #[trigger]
            self.indexes.contains_key(c) ==> self.indexes[c].col_id == c
                && self.indexes[c].covers(self.rows)
    }

    /// The table with one row more.
    pub open spec fn insert(self, k: Key, row: Row) -> TableModel {
        TableModel {
            rows: self.rows.insert(k, row),
            indexes: self.indexes.map_values(|i: IndexModel| i.with_row(k, row)),
            ..self
        }
    }

    /// The table with all of `rows` besides its own.
    pub open spec fn insert_all(self, rows: Map<Key, Row>) -> TableModel {
        TableModel {
            rows: self.rows.union_prefer_right(rows),
            indexes: self.indexes.map_values(|i: IndexModel| i.with_rows(rows)),
            ..self
        }
    }

    /// The table without the rows under `keys`.
    pub open spec fn delete_all(self, keys: Set<Key>) -> TableModel {
        TableModel {
            rows: self.rows.remove_keys(keys),
            indexes: self.indexes.map_values(|i: IndexModel| i.without(keys)),
            ..self
        }
    }

    /// The table with one index more, or another in the place of one.
    pub open spec fn insert_index(self, index: IndexModel) -> TableModel {
        TableModel {
            indexes: self.indexes.insert(index.col_id, index.emptied().with_rows(self.rows)),
            ..self
        }
    }

    /// The table with an index in its column's place, and its schema among the others.
    pub open spec fn set_index(self, index: IndexModel, schema: IndexSchemaModel) -> TableModel {
        TableModel {
            indexes: self.indexes.insert(index.col_id, index),
            schema: SchemaModel {
                indexes: self.schema.indexes.push(schema),
                ..self.schema
            },
            ..self
        }
    }

    /// The table with those of `indexes` whose columns had none.
    pub open spec fn add_indexes(self, indexes: Map<u32, IndexModel>) -> TableModel {
        TableModel {
            indexes: Map::new(
                |c: u32| self.indexes.contains_key(c) || indexes.contains_key(c),
                |c: u32|
                    if self.indexes.contains_key(c) {
                        self.indexes[c]
                    } else {
                        indexes[c].emptied().with_rows(self.rows)
                    },
            ),
            ..self
        }
    }

    /// The table with its indexes and nothing in them.
    pub open spec fn emptied(self) -> TableModel {
        TableModel {
            rows: Map::empty(),
            indexes: self.indexes.map_values(|i: IndexModel| i.emptied()),
            ..self
        }
    }

    /// The columns that the index is on.
    pub open spec fn columns_of_index(self, index_id: u32) -> Set<u32> {
        Set::new(|c: u32| self.indexes.contains_key(c) && self.indexes[c].index_id == index_id)
    }

    /// The table without an index.
    pub open spec fn without_index(self, index_id: u32) -> TableModel {
        let cols = self.columns_of_index(index_id);
        TableModel {
            indexes: self.indexes.remove_keys(cols),
            schema: SchemaModel {
                indexes: self.schema.indexes.filter(
                    |x: IndexSchemaModel| !cols.contains(x.col_id),
                ),
                ..self.schema
            },
            ..self
        }
    }

    /// The columns that the indexes are on.
    pub open spec fn columns_of_indexes(self, ids: Set<u32>) -> Set<u32> {
        Set::new(|c: u32| self.indexes.contains_key(c) && ids.contains(self.indexes[c].index_id))
    }

    /// The table without some indexes.
    pub open spec fn without_indexes(self, ids: Set<u32>) -> TableModel {
        let cols = self.columns_of_indexes(ids);
        TableModel {
            indexes: self.indexes.remove_keys(cols),
            schema: SchemaModel {
                indexes: self.schema.indexes.filter(
                    |x: IndexSchemaModel| !cols.contains(x.col_id),
                ),
                ..self.schema
            },
            ..self
        }
    }

    /// The index of column `c` stands in the way of `row`.
    pub open spec fn conflict_at(self, c: u32, row: Row, gone: Set<Key>) -> bool {
        self.indexes.contains_key(c) && self.indexes[c].conflicts(row, gone)
    }

    /// The first column whose index stands in the way of `row`, if one does. The rows in `gone` do
    /// not.
    #[verifier::opaque]
    pub open spec fn first_conflict(self, row: Row, gone: Set<Key>) -> Option<u32> {
        if exists|c: u32| self.conflict_at(c, row, gone) {
            Some(
                choose|c: u32|
                    self.conflict_at(c, row, gone) && (forall|d: u32|
                        #[trigger] self.conflict_at(d, row, gone) ==> c <= d),
            )
        } else {
            None
        }
    }

    /// What `row` is refused with by the index of column `c`.
    pub open spec fn violation(self, c: u32, row: Row) -> Fault {
        Fault::UniqueConstraintViolation {
            constraint_name: self.indexes[c].name,
            table_name: self.schema.table_name,
            col_name: self.schema.col_name(c),
            value: row[c as int],
        }
    }
}

/// A table in memory.
pub struct Table {
    pub row_type: ProductType,
    pub schema: TableSchema,
    pub indexes: OrdMap<u32, BTreeIndex>,
    pub rows: OrdMap<RowId, ProductValue>,
}

/// What the indexes of a table are.
pub open spec fn index_models(indexes: Map<u32, BTreeIndex>) -> Map<u32, IndexModel> {
    indexes.map_values(|i: BTreeIndex| i@)
}

impl View for Table {
    type V = TableModel;

    open spec fn view(&self) -> TableModel {
        TableModel {
            row_type: self.row_type@,
            schema: self.schema@,
            rows: rows_model(self.rows@),
            indexes: index_models(self.indexes@),
        }
    }
}

impl Table {
    pub open spec fn wf(&self) -> bool {
        &&& self.rows.wf()
        &&& self.indexes.wf()
        &&& forall|c: u32| #[trigger] self.indexes@.contains_key(c) ==> self.indexes@[c].wf()
        &&& self@.inv()
    }

    /// A table with neither rows nor indexes.
    pub fn new(row_type: ProductType, schema: TableSchema) -> (r: Table)
        ensures
            r.wf(),
            r@ == (TableModel {
                row_type: row_type@,
                schema: schema@,
                rows: Map::empty(),
                indexes: Map::empty(),
            }),
    {
        let r = Table { row_type, schema, indexes: OrdMap::new(), rows: OrdMap::new() };
        assert(r@.rows =~= Map::<Key, Row>::empty());
        assert(r@.indexes =~= Map::<u32, IndexModel>::empty());
        r
    }

    pub fn insert(&mut self, row_id: RowId, row: ProductValue)
        requires
            old(self).wf(),
            row_id@ == row_key(row@),
        ensures
            final(self).wf(),
            final(self)@ == old(self)@.insert(row_id@, row@),
    {
        let ghost ks = self.indexes.keys();
        proof {
            self.indexes.lemma_keys();
        }
        let n: usize = self.indexes.len();
        let ghost was = self.indexes@;
        for i in 0..n
            invariant
                n == ks.len(),
                ks == self.indexes.keys(),
                self.indexes.wf(),
                self.rows == old(self).rows,
                self.row_type == old(self).row_type,
                self.schema == old(self).schema,
                self.indexes@.dom() == was.dom(),
                was == old(self).indexes@,
                forall|c: u32| #[trigger] self.indexes@.contains_key(c) ==> self.indexes@[c].wf(),
                forall|i: int| 0 <= i < ks.len() ==> was.contains_key(#[trigger] ks[i]),
                forall|a: int, b: int|
                    #![trigger ks[a], ks[b]]
                    0 <= a < b < ks.len() ==> ks[a] < ks[b],
                forall|j: int|
                    0 <= j < i ==> self.indexes@[#[trigger] ks[j]]@ == was[ks[j]]@.with_row(
                        row_id@,
                        row@,
                    ),
                forall|j: int| i <= j < n ==> self.indexes@[#[trigger] ks[j]] == was[ks[j]],
        {
            assert(self.indexes@.contains_key(ks[i as int]));
            let index = self.indexes.value_at_mut(i);
            index.insert(&row_id, &row);
            assert(self.indexes@.dom() =~= was.dom());
        }
        let ghost k = row_id@;
        let ghost r = row@;
        self.rows.insert(row_id, row);
        proof {
            self.indexes.lemma_keys();
            assert forall|c: u32| #[trigger] self.indexes@.contains_key(c) implies self.indexes@[c]@
                == was[c]@.with_row(k, r) by {
                assert(ks.contains(c));
                let j = choose|j: int| 0 <= j < ks.len() && ks[j] == c;
                assert(self.indexes@[ks[j]]@ == was[ks[j]]@.with_row(k, r));
            }
            assert(self@.indexes =~= old(self)@.insert(k, r).indexes);
            assert(self@.rows =~= old(self)@.rows.insert(k, r));
            lemma_insert_inv(old(self)@, k, r);
        }
    }

    pub fn delete(&mut self, row_id: &RowId)
        requires
            old(self).wf(),
        ensures
            final(self).wf(),
            final(self)@ == old(self)@.delete_all(set![row_id@]),
    {
        let ghost gone = set![row_id@];
        self.rows.remove(row_id);
        let ghost ks = self.indexes.keys();
        proof {
            self.indexes.lemma_keys();
        }
        let n: usize = self.indexes.len();
        let ghost was = self.indexes@;
        for i in 0..n
            invariant
                n == ks.len(),
                ks == self.indexes.keys(),
                self.indexes.wf(),
                self.rows.wf(),
                self.rows@ == old(self).rows@.remove(row_id@),
                self.row_type == old(self).row_type,
                self.schema == old(self).schema,
                gone == set![row_id@],
                self.indexes@.dom() == was.dom(),
                was == old(self).indexes@,
                forall|c: u32| #[trigger] self.indexes@.contains_key(c) ==> self.indexes@[c].wf(),
                forall|i: int| 0 <= i < ks.len() ==> was.contains_key(#[trigger] ks[i]),
                forall|a: int, b: int|
                    #![trigger ks[a], ks[b]]
                    0 <= a < b < ks.len() ==> ks[a] < ks[b],
                forall|j: int|
                    0 <= j < i ==> self.indexes@[#[trigger] ks[j]]@ == was[ks[j]]@.without(gone),
                forall|j: int| i <= j < n ==> self.indexes@[#[trigger] ks[j]] == was[ks[j]],
        {
            assert(self.indexes@.contains_key(ks[i as int]));
            let index = self.indexes.value_at_mut(i);
            index.delete(row_id);
            assert(self.indexes@.dom() =~= was.dom());
        }
        proof {
            self.indexes.lemma_keys();
            assert forall|c: u32| #[trigger] self.indexes@.contains_key(c) implies self.indexes@[c]@
                == was[c]@.without(gone) by {
                assert(ks.contains(c));
                let j = choose|j: int| 0 <= j < ks.len() && ks[j] == c;
                assert(self.indexes@[ks[j]]@ == was[ks[j]]@.without(gone));
            }
            let t = old(self)@.delete_all(gone);
            assert(self@.indexes =~= t.indexes);
            assert(self@.rows =~= t.rows);
            lemma_delete_inv(old(self)@, gone);
        }
    }

    /// Takes in all of `rows`, each reported as a write to table `table_id`.
    pub fn insert_rows(
        &mut self,
        table_id: u32,
        rows: OrdMap<RowId, ProductValue>,
        writes: &mut Vec<Write>,
    )
        requires
            old(self).wf(),
            rows.wf(),
            forall|k: Key| #[trigger] rows@.contains_key(k) ==> row_key(rows@[k]@) == k,
        ensures
            final(self).wf(),
            final(self)@ == old(self)@.insert_all(rows_model(rows@)),
            writes_model(final(writes)@) == writes_model(old(writes)@) + writes_of(
                Operation::Insert,
                table_id,
                rows@.dom(),
            ),
    {
        let ghost all = rows_model(rows@);
        let ghost ks = rows.keys();
        let mut rest = rows;
        let ghost mut i: int = 0;
        proof {
            rest.lemma_keys();
            assert(ks.skip(0) =~= ks);
            assert(all.restrict(ks.take(0).to_set()) =~= Map::<Key, Row>::empty());
            lemma_insert_none(self@);
            assert(writes_model(writes@) =~= writes_model(old(writes)@) + writes_in_order(
                Operation::Insert,
                table_id,
                ks.take(0),
            ));
        }
        while rest.len() > 0
            invariant
                self.wf(),
                rest.wf(),
                0 <= i <= ks.len(),
                rest.keys() == ks.skip(i),
                ascends::<RowId>(ks),
                ks.to_set() == all.dom(),
                forall|k: Key| #[trigger]
                    rest@.contains_key(k) ==> all.contains_key(k) && rest@[k]@ == all[k]
                        && row_key(all[k]) == k,
                self@ == old(self)@.insert_all(all.restrict(ks.take(i).to_set())),
                writes_model(writes@) == writes_model(old(writes)@) + writes_in_order(
                    Operation::Insert,
                    table_id,
                    ks.take(i),
                ),
            decreases rest.keys().len(),
        {
            let ghost small = all.restrict(ks.take(i).to_set());
            let ghost big = all.restrict(ks.take(i + 1).to_set());
            let ghost written = writes@;
            proof {
                rest.lemma_keys();
                assert(rest.keys()[0] == ks[i]);
                assert(rest@.contains_key(rest.keys()[0]));
            }
            let (row_id, row) = rest.take_first();
            let ghost k = row_id@;
            let ghost r = row@;
            proof {
                if ks.take(i).contains(k) {
                    let j = choose|j: int| 0 <= j < i && ks.take(i)[j] == k;
                    assert(RowId::before(ks[j], ks[i]));
                    RowId::law_irreflexive(k);
                }
            }
            writes.push(
                Write {
                    operation: Operation::Insert,
                    set_id: table_id,
                    data_key: row_id.0.clone(),
                },
            );
            self.insert(row_id, row);
            proof {
                lemma_take_set(ks, i);
                assert(big =~= small.insert(k, r));
                lemma_insert_one_more(old(self)@, small, k, r);
                assert(ks.skip(i).skip(1) =~= ks.skip(i + 1));
                assert(ks.take(i + 1) =~= ks.take(i).push(k));
                lemma_write_step(written, writes@, Operation::Insert, table_id, ks.take(i), k);
                assert(writes_model(writes@) =~= writes_model(old(writes)@) + writes_in_order(
                    Operation::Insert,
                    table_id,
                    ks.take(i + 1),
                ));
                i = i + 1;
            }
        }
        proof {
            assert(ks.take(i) =~= ks);
            assert(all.restrict(ks.to_set()) =~= all);
        }
    }

    /// Lets go of the rows in `row_ids`, each reported as a write to table `table_id`.
    pub fn delete_rows(
        &mut self,
        table_id: u32,
        row_ids: &OrdMap<RowId, ()>,
        writes: &mut Vec<Write>,
    )
        requires
            old(self).wf(),
            row_ids.wf(),
        ensures
            final(self).wf(),
            final(self)@ == old(self)@.delete_all(row_ids@.dom()),
            writes_model(final(writes)@) == writes_model(old(writes)@) + writes_of(
                Operation::Delete,
                table_id,
                row_ids@.dom(),
            ),
    {
        let ghost ks = row_ids.keys();
        proof {
            row_ids.lemma_keys();
            assert(ks.take(0).to_set() =~= Set::<Key>::empty());
            lemma_delete_none(self@);
            assert(writes_model(writes@) =~= writes_model(old(writes)@) + writes_in_order(
                Operation::Delete,
                table_id,
                ks.take(0),
            ));
        }
        let n: usize = row_ids.len();
        for i in 0..n
            invariant
                n == ks.len(),
                ks == row_ids.keys(),
                self.wf(),
                row_ids.wf(),
                self@ == old(self)@.delete_all(ks.take(i as int).to_set()),
                writes_model(writes@) == writes_model(old(writes)@) + writes_in_order(
                    Operation::Delete,
                    table_id,
                    ks.take(i as int),
                ),
        {
            let ghost written = writes@;
            let row_id = row_ids.key_at(i);
            self.delete(row_id);
            writes.push(
                Write {
                    operation: Operation::Delete,
                    set_id: table_id,
                    data_key: row_id.0.clone(),
                },
            );
            proof {
                let k = row_id@;
                lemma_take_set(ks, i as int);
                lemma_delete_one_more(old(self)@, ks.take(i as int).to_set(), k);
                assert(ks.take(i + 1) =~= ks.take(i as int).push(k));
                lemma_write_step(
                    written,
                    writes@,
                    Operation::Delete,
                    table_id,
                    ks.take(i as int),
                    k,
                );
                assert(writes_model(writes@) =~= writes_model(old(writes)@) + writes_in_order(
                    Operation::Delete,
                    table_id,
                    ks.take(i + 1),
                ));
            }
        }
        assert(ks.take(ks.len() as int) =~= ks);
    }

    /// Adds those of `indexes` whose columns have none.
    pub fn add_indexes(&mut self, indexes: OrdMap<u32, BTreeIndex>)
        requires
            old(self).wf(),
            indexes.wf(),
            forall|c: u32| #[trigger]
                indexes@.contains_key(c) ==> indexes@[c].wf() && indexes@[c].col_id == c,
        ensures
            final(self).wf(),
            final(self)@ == old(self)@.add_indexes(index_models(indexes@)),
    {
        let ghost all = index_models(indexes@);
        let ghost ks = indexes.keys();
        let mut rest = indexes;
        let ghost mut i: int = 0;
        proof {
            rest.lemma_keys();
            assert(ks.skip(0) =~= ks);
            assert(all.restrict(ks.take(0).to_set()) =~= Map::<u32, IndexModel>::empty());
            assert(self@.add_indexes(Map::<u32, IndexModel>::empty()) =~= self@);
        }
        while rest.len() > 0
            invariant
                self.wf(),
                rest.wf(),
                0 <= i <= ks.len(),
                rest.keys() == ks.skip(i),
                ks.to_set() == all.dom(),
                forall|c: u32| #[trigger]
                    rest@.contains_key(c) ==> all.contains_key(c) && rest@[c]@ == all[c]
                        && rest@[c].wf() && rest@[c].col_id == c,
                self@ == old(self)@.add_indexes(all.restrict(ks.take(i).to_set())),
            decreases rest.keys().len(),
        {
            let ghost small = all.restrict(ks.take(i).to_set());
            let ghost big = all.restrict(ks.take(i + 1).to_set());
            let ghost before = self@;
            proof {
                rest.lemma_keys();
                assert(rest.keys()[0] == ks[i]);
                assert(rest@.contains_key(rest.keys()[0]));
            }
            let (col_id, index) = rest.take_first();
            let ghost added = index@;
            proof {
                lemma_take_set(ks, i);
                assert(big =~= small.insert(col_id, added));
                assert(ks.skip(i).skip(1) =~= ks.skip(i + 1));
            }
            if !self.indexes.contains_key(&col_id) {
                assert(!before.indexes.contains_key(col_id));
                self.insert_index(index);
                assert(self@.indexes =~= old(self)@.add_indexes(big).indexes);
            } else {
                assert(before.indexes.contains_key(col_id));
                assert(self@.indexes =~= old(self)@.add_indexes(big).indexes);
            }
            proof {
                i = i + 1;
            }
        }
        proof {
            assert(ks.take(i) =~= ks);
            assert(all.restrict(ks.to_set()) =~= all);
        }
    }

    /// Adds an index, with all the rows in it.
    pub fn insert_index(&mut self, index: BTreeIndex)
        requires
            old(self).wf(),
            index.wf(),
        ensures
            final(self).wf(),
            final(self)@ == old(self)@.insert_index(index@),
    {
        let mut index = index.emptied();
        let ghost first = index@;
        let ghost ks = self.rows.keys();
        let ghost m = rows_model(self.rows@);
        proof {
            self.rows.lemma_keys();
            assert(m.restrict(ks.take(0).to_set()) =~= Map::<Key, Row>::empty());
            assert(first.with_rows(m.restrict(ks.take(0).to_set())).entries =~= first.entries);
        }
        let n: usize = self.rows.len();
        for i in 0..n
            invariant
                n == self.rows.keys().len(),
                index.wf(),
                self.rows.wf(),
                ks == self.rows.keys(),
                m == rows_model(self.rows@),
                forall|i: int| 0 <= i < ks.len() ==> self.rows@.contains_key(#[trigger] ks[i]),
                index@ == first.with_rows(m.restrict(ks.take(i as int).to_set())),
        {
            let k = self.rows.key_at(i);
            let row = self.rows.value_at(i);
            proof {
                assert(self.rows@.contains_key(ks[i as int]));
                assert(m.contains_key(ks[i as int]));
            }
            index.insert(k, row);
            proof {
                let small = m.restrict(ks.take(i as int).to_set());
                let big = m.restrict(ks.take(i + 1).to_set());
                lemma_take_set(ks, i as int);
                assert(big =~= small.insert(ks[i as int], m[ks[i as int]]));
                assert(index@.entries =~= first.with_rows(big).entries);
            }
        }
        proof {
            assert(ks.take(ks.len() as int) =~= ks);
            assert(m.restrict(ks.to_set()) =~= m);
        }
        let col_id: u32 = index.col_id;
        let ghost full = index;
        self.indexes.insert(col_id, index);
        proof {
            assert(self@.indexes =~= old(self)@.indexes.insert(col_id, full@));
            assert(self@.rows == old(self)@.rows);
        }
    }

    /// Puts an index that holds all the rows in its column's place.
    pub fn put_index(&mut self, index: BTreeIndex)
        requires
            old(self).wf(),
            index.wf(),
            index@.covers(old(self)@.rows),
        ensures
            final(self).wf(),
            final(self)@ == (TableModel {
                indexes: old(self)@.indexes.insert(index@.col_id, index@),
                ..old(self)@
            }),
    {
        let ghost full = index;
        let col_id: u32 = index.col_id;
        self.indexes.insert(col_id, index);
        assert(self@.indexes =~= old(self)@.indexes.insert(col_id, full@));
    }

    /// Puts an index that holds all the rows in its column's place, and lists it in the schema.
    pub fn set_index(&mut self, index: BTreeIndex, schema: IndexSchema)
        requires
            old(self).wf(),
            index.wf(),
            index@.covers(old(self)@.rows),
        ensures
            final(self).wf(),
            final(self)@ == old(self)@.set_index(index@, schema@),
    {
        let ghost added = schema@;
        self.put_index(index);
        let ghost mid = self@;
        self.schema.indexes.push(schema);
        proof {
            assert(self@.schema.indexes =~= old(self)@.schema.indexes.push(added));
            assert(self@.rows == mid.rows && self@.indexes == mid.indexes);
        }
    }

    /// Takes an index out of the table and out of its schema.
    pub fn drop_index(&mut self, index_id: &IndexId)
        requires
            old(self).wf(),
        ensures
            final(self).wf(),
            final(self)@ == old(self)@.without_index(index_id.0),
    {
        let ghost all = old(self)@.columns_of_index(index_id.0);
        let ghost ks = self.indexes.keys();
        proof {
            self.indexes.lemma_keys();
        }
        let mut cols: Vec<u32> = Vec::new();
        let n: usize = self.indexes.len();
        for i in 0..n
            invariant
                n == ks.len(),
                ks == self.indexes.keys(),
                *self == *old(self),
                self.wf(),
                all == old(self)@.columns_of_index(index_id.0),
                forall|i: int| 0 <= i < ks.len() ==> self.indexes@.contains_key(#[trigger] ks[i]),
                forall|c: u32|
                    #![trigger cols@.contains(c)]
                    cols@.contains(c) <==> all.contains(c) && ks.take(i as int).contains(c),
        {
            let ghost before = cols@;
            let index = self.indexes.value_at(i);
            assert(self.indexes@.contains_key(ks[i as int]));
            assert(self@.indexes.contains_key(ks[i as int]));
            proof {
                lemma_take_set(ks, i as int);
                assert forall|c: u32|
                    ks.take(i + 1).contains(c) <==> ks.take(i as int).contains(c) || c == ks[i as int] by {
                    assert(ks.take(i + 1).to_set().contains(c) <==> ks.take(
                        i as int,
                    ).to_set().insert(ks[i as int]).contains(c));
                }
            }
            assert(all.contains(ks[i as int]) == (index.index_id.0 == index_id.0));
            if index.index_id.0 == index_id.0 {
                assert(index.col_id == self@.indexes[ks[i as int]].col_id);
                cols.push(index.col_id);
                proof {
                    assert forall|c: u32| cols@.contains(c) <==> before.contains(c) || c
                        == ks[i as int] by {
                        if before.contains(c) {
                            let j = choose|j: int| 0 <= j < before.len() && before[j] == c;
                            assert(cols@[j] == c);
                        }
                        assert(cols@[before.len() as int] == ks[i as int]);
                    }
                }
            }
            assert forall|c: u32|
                #![trigger cols@.contains(c)]
                cols@.contains(c) <==> all.contains(c) && ks.take(i + 1).contains(c) by {
                assert(before.contains(c) <==> all.contains(c) && ks.take(i as int).contains(c));
            }
        }
        assert(ks.take(ks.len() as int) =~= ks);
        let ghost mid = *self;
        let ghost xs = indexes_model(self.schema.indexes@);
        let ghost p = |x: IndexSchemaModel| !all.contains(x.col_id);
        let mut kept: Vec<IndexSchema> = Vec::new();
        proof {
            reveal(Seq::filter);
        }
        assert(indexes_model(kept@) =~= xs.take(0).filter(p));
        let m: usize = self.schema.indexes.len();
        for i in 0..m
            invariant
                m == self.schema.indexes@.len(),
                *self == mid,
                xs == indexes_model(self.schema.indexes@),
                p == (|x: IndexSchemaModel| !all.contains(x.col_id)),
                forall|c: u32| #[trigger] cols@.contains(c) <==> all.contains(c),
                indexes_model(kept@) == xs.take(i as int).filter(p),
        {
            let ghost before = kept@;
            proof {
                lemma_filter_step(xs, p, i as int);
            }
            let x = &self.schema.indexes[i];
            assert(xs[i as int] == x@);
            if !contains_col(&cols, x.col_id) {
                kept.push(x.clone());
                assert(indexes_model(kept@) =~= indexes_model(before).push(xs[i as int]));
            }
        }
        assert(xs.take(xs.len() as int) =~= xs);
        self.schema.indexes = kept;
        let l: usize = cols.len();
        let ghost was = mid.indexes@;
        assert(was =~= was.remove_keys(cols@.take(0).to_set()));
        for i in 0..l
            invariant
                l == cols@.len(),
                self.indexes.wf(),
                self.indexes@ == was.remove_keys(cols@.take(i as int).to_set()),
                self.rows == mid.rows,
                self.row_type == mid.row_type,
                self.schema@ == (SchemaModel { indexes: xs.filter(p), ..mid.schema@ }),
        {
            self.indexes.remove(&cols[i]);
            proof {
                lemma_take_set(cols@, i as int);
                assert(self.indexes@ =~= was.remove_keys(cols@.take(i + 1).to_set()));
            }
        }
        proof {
            assert(cols@.take(cols@.len() as int) =~= cols@);
            assert(cols@.to_set() =~= all);
            assert(self@.indexes =~= old(self)@.without_index(index_id.0).indexes);
            assert(self@.schema == old(self)@.without_index(index_id.0).schema);
        }
    }

    /// The first column whose index `row` would break the uniqueness of.
    pub fn unique_violation(&self, row: &ProductValue) -> (r: Option<u32>)
        requires
            self.wf(),
        ensures
            r == self@.first_conflict(row@, Set::empty()),
            r matches Some(c) ==> self@.indexes.contains_key(c) && c < row@.len(),
    {
        let ghost ks = self.indexes.keys();
        let ghost gone = Set::<Key>::empty();
        proof {
            self.indexes.lemma_keys();
        }
        let n: usize = self.indexes.len();
        for i in 0..n
            invariant
                n == ks.len(),
                ks == self.indexes.keys(),
                self.wf(),
                gone == Set::<Key>::empty(),
                ascends::<u32>(ks),
                forall|i: int| 0 <= i < ks.len() ==> self.indexes@.contains_key(#[trigger] ks[i]),
                forall|c: u32| #[trigger] self.indexes@.contains_key(c) ==> ks.contains(c),
                forall|j: int| 0 <= j < i ==> !self@.conflict_at(#[trigger] ks[j], row@, gone),
        {
            let index = self.indexes.value_at(i);
            assert(self.indexes@.contains_key(ks[i as int]));
            assert(self@.indexes.contains_key(ks[i as int]));
            if index.violates_unique_constraint(row) {
                proof {
                    lemma_first_conflict(self@, ks, i as int, row@, gone);
                }
                return Some(index.col_id);
            }
        }
        proof {
            lemma_no_conflict(self@, ks, row@, gone);
        }
        None
    }

    /// The first column whose index `row` would break the uniqueness of, were the rows in `gone`
    /// and in `fresh`, and the indexes in `dropped`, not there.
    pub fn unique_violation_except(
        &self,
        row: &ProductValue,
        gone: &OrdMap<RowId, ()>,
        fresh: &OrdMap<RowId, ProductValue>,
        dropped: &OrdMap<u32, ()>,
    ) -> (r: Option<u32>)
        requires
            self.wf(),
            gone.wf(),
            fresh.wf(),
            dropped.wf(),
        ensures
            r == self@.without_indexes(dropped@.dom()).first_conflict(
                row@,
                gone@.dom().union(fresh@.dom()),
            ),
            r matches Some(c) ==> self@.without_indexes(dropped@.dom()).indexes.contains_key(c) && c
                < row@.len(),
    {
        let ghost left = self@.without_indexes(dropped@.dom());
        let ghost out = gone@.dom().union(fresh@.dom());
        let ghost ks = self.indexes.keys();
        proof {
            self.indexes.lemma_keys();
        }
        let n: usize = self.indexes.len();
        for i in 0..n
            invariant
                n == ks.len(),
                ks == self.indexes.keys(),
                self.wf(),
                gone.wf(),
                fresh.wf(),
                dropped.wf(),
                left == self@.without_indexes(dropped@.dom()),
                out == gone@.dom().union(fresh@.dom()),
                ascends::<u32>(ks),
                forall|i: int| 0 <= i < ks.len() ==> self.indexes@.contains_key(#[trigger] ks[i]),
                forall|c: u32| #[trigger] self.indexes@.contains_key(c) ==> ks.contains(c),
                forall|j: int|
                    0 <= j < i ==> !left.conflict_at(#[trigger] ks[j], row@, out),
        {
            let index = self.indexes.value_at(i);
            assert(self.indexes@.contains_key(ks[i as int]));
            assert(self@.indexes.contains_key(ks[i as int]));
            assert(left.indexes.contains_key(ks[i as int]) <==> !dropped@.contains_key(
                index.index_id.0,
            ));
            if !dropped.contains_key(&index.index_id.0) && violates_except(
                index,
                row,
                gone,
                fresh,
            ) {
                proof {
                    lemma_first_conflict(left, ks, i as int, row@, out);
                }
                return Some(index.col_id);
            }
        }
        proof {
            lemma_no_conflict(left, ks, row@, out);
        }
        None
    }

    /// Gives the table another schema.
    pub fn set_schema(&mut self, schema: TableSchema)
        requires
            old(self).wf(),
        ensures
            final(self).wf(),
            final(self)@ == (TableModel { schema: schema@, ..old(self)@ }),
    {
        let ghost before = self@;
        self.schema = schema;
        assert forall|k: Key| #[trigger] self@.rows.contains_key(k) implies row_key(self@.rows[k])
            == k by {
            assert(before.rows.contains_key(k));
        }
        assert forall|c: u32| #[trigger] self@.indexes.contains_key(c) implies
            self@.indexes[c].col_id == c && self@.indexes[c].covers(self@.rows) by {
            assert(before.indexes.contains_key(c));
        }
    }

    /// Takes some indexes out of the table and out of its schema.
    pub fn drop_indexes(&mut self, dropped: &OrdMap<u32, ()>)
        requires
            old(self).wf(),
            dropped.wf(),
        ensures
            final(self).wf(),
            final(self)@ == old(self)@.without_indexes(dropped@.dom()),
    {
        let ghost ks = dropped.keys();
        proof {
            dropped.lemma_keys();
            assert(ks.take(0).to_set() =~= Set::<u32>::empty());
            lemma_without_none(self@);
        }
        let n: usize = dropped.len();
        for i in 0..n
            invariant
                n == ks.len(),
                ks == dropped.keys(),
                self.wf(),
                self@ == old(self)@.without_indexes(ks.take(i as int).to_set()),
        {
            let id: u32 = *dropped.key_at(i);
            self.drop_index(&IndexId(id));
            proof {
                lemma_take_set(ks, i as int);
                lemma_without_one_more(old(self)@, ks.take(i as int).to_set(), id);
            }
        }
        assert(ks.take(ks.len() as int) =~= ks);
    }

    /// The table with its indexes but those in `dropped`, and nothing in them.
    pub fn emptied_without(&self, dropped: &OrdMap<u32, ()>) -> (r: Table)
        requires
            self.wf(),
            dropped.wf(),
        ensures
            r.wf(),
            r@ == self@.without_indexes(dropped@.dom()).emptied(),
    {
        let mut r = self.emptied();
        r.drop_indexes(dropped);
        proof {
            let ids = dropped@.dom();
            let a = self@.emptied().without_indexes(ids);
            let b = self@.without_indexes(ids).emptied();
            assert(self@.emptied().columns_of_indexes(ids) =~= self@.columns_of_indexes(ids));
            assert(a.indexes =~= b.indexes);
            assert(a.schema == b.schema);
        }
        r
    }

    /// What `row` is refused with by the index of column `col_id`.
    pub fn violation(&self, col_id: u32, row: &ProductValue) -> (r: DBError)
        requires
            self.wf(),
            self@.indexes.contains_key(col_id),
            col_id < row@.len(),
        ensures
            r@ == self@.violation(col_id, row@),
    {
        let constraint_name = match self.indexes.get(&col_id) {
            Some(index) => index.name.clone(),
            None => String::new(),
        };
        let col_name = if (col_id as usize) < self.schema.columns.len() {
            assert(self@.schema.columns[col_id as int] == self.schema.columns@[col_id as int]@);
            self.schema.columns[col_id as usize].col_name.clone()
        } else {
            let none = String::new();
            assert(none@ =~= Seq::<char>::empty());
            none
        };
        let value = row.elements[col_id as usize].clone();
        assert(row@[col_id as int] == row.elements@[col_id as int]@);
        DBError::Index(
            IndexError::UniqueConstraintViolation {
                constraint_name,
                table_name: self.schema.table_name.clone(),
                col_name,
                value,
            },
        )
    }

    /// The table with its indexes and nothing in them.
    pub fn emptied(&self) -> (r: Table)
        requires
            self.wf(),
        ensures
            r.wf(),
            r@ == self@.emptied(),
    {
        let mut r = Table::new(self.row_type.clone(), self.schema.clone());
        let ghost ks = self.indexes.keys();
        let ghost m = index_models(self.indexes@);
        proof {
            self.indexes.lemma_keys();
        }
        let n: usize = self.indexes.len();
        for i in 0..n
            invariant
                n == ks.len(),
                ks == self.indexes.keys(),
                self.wf(),
                m == index_models(self.indexes@),
                r.wf(),
                r@.row_type == self@.row_type,
                r@.schema == self@.schema,
                r@.rows == Map::<Key, Row>::empty(),
                forall|i: int| 0 <= i < ks.len() ==> self.indexes@.contains_key(#[trigger] ks[i]),
                r@.indexes == m.restrict(ks.take(i as int).to_set()).map_values(
                    |i: IndexModel| i.emptied(),
                ),
        {
            let index = self.indexes.value_at(i);
            let ghost was = r@.indexes;
            assert(self.indexes@.contains_key(ks[i as int]));
            assert(self@.indexes.contains_key(ks[i as int]));
            let bare = index.emptied();
            let ghost added = bare@;
            r.insert_index(bare);
            proof {
                lemma_take_set(ks, i as int);
                assert(added.with_rows(Map::<Key, Row>::empty()).entries =~= added.entries);
                assert(r@.indexes =~= was.insert(ks[i as int], added));
                assert(r@.indexes =~= m.restrict(ks.take(i + 1).to_set()).map_values(
                    |i: IndexModel| i.emptied(),
                ));
            }
        }
        proof {
            assert(ks.take(ks.len() as int) =~= ks);
            assert(m.restrict(ks.to_set()) =~= m);
        }
        r
    }

    pub fn get_row(&self, row_id: &RowId) -> (r: Option<&ProductValue>)
        requires
            self.wf(),
        ensures
            match r {
                Some(row) => self@.rows.contains_key(row_id@) && row@ == self@.rows[row_id@],
                None => !self@.rows.contains_key(row_id@),
            },
    {
        self.rows.get(row_id)
    }

    pub fn get_row_type(&self) -> (r: &ProductType)
        ensures
            r@ == self@.row_type,
    {
        &self.row_type
    }

    pub fn get_schema(&self) -> (r: &TableSchema)
        ensures
            r@ == self@.schema,
    {
        &self.schema
    }

    /// The rows that hold `value` in an indexed column, in the order of their ids.
    pub fn index_seek(&self, col_id: ColId, value: &AlgebraicValue) -> (r: Option<Vec<RowId>>)
        requires
            self.wf(),
        ensures
            match r {
                Some(ids) => {
                    &&& self@.indexes.contains_key(col_id.0)
                    &&& lists_in_order(ids@, self@.indexes[col_id.0].holding(value@))
                },
                None => !self@.indexes.contains_key(col_id.0),
            },
    {
        match self.indexes.get(&col_id.0) {
            Some(index) => Some(index.seek(value)),
            None => None,
        }
    }
}

/// Whether each of `ids` is in `gone` or in `fresh`.
fn all_among(
    ids: &Vec<RowId>,
    gone: &OrdMap<RowId, ()>,
    fresh: &OrdMap<RowId, ProductValue>,
) -> (r: bool)
    requires
        gone.wf(),
        fresh.wf(),
    ensures
        r == forall|k: Key| #[trigger]
            row_ids(ids@).contains(k) ==> gone@.dom().union(fresh@.dom()).contains(k),
{
    let n: usize = ids.len();
    for i in 0..n
        invariant
            n == ids@.len(),
            gone.wf(),
            fresh.wf(),
            forall|j: int|
                0 <= j < i ==> gone@.dom().union(fresh@.dom()).contains(
                    #[trigger] row_ids(ids@)[j],
                ),
    {
        if !gone.contains_key(&ids[i]) && !fresh.contains_key(&ids[i]) {
            assert(row_ids(ids@)[i as int] == ids@[i as int]@);
            assert(row_ids(ids@).contains(ids@[i as int]@));
            return false;
        }
        assert(row_ids(ids@)[i as int] == ids@[i as int]@);
    }
    true
}

/// Whether `row` would break the uniqueness of `index`, were the rows in `gone` and in `fresh` not
/// there.
fn violates_except(
    index: &BTreeIndex,
    row: &ProductValue,
    gone: &OrdMap<RowId, ()>,
    fresh: &OrdMap<RowId, ProductValue>,
) -> (r: bool)
    requires
        index.wf(),
        gone.wf(),
        fresh.wf(),
    ensures
        r == index@.conflicts(row@, gone@.dom().union(fresh@.dom())),
{
    match index.get_rows_that_violate_unique_constraint(row) {
        None => false,
        Some(violators) => {
            let clear = all_among(&violators, gone, fresh);
            proof {
                let d = index@.holding(row@[index.col_id as int]);
                assert forall|k: Key| #[trigger] d.contains(k) <==> row_ids(
                    violators@,
                ).contains(k) by {
                    assert(row_ids(violators@).to_set().contains(k) <==> d.contains(k));
                }
                if !clear {
                    let k = choose|k: Key|
                        #![trigger row_ids(violators@).contains(k)]
                        row_ids(violators@).contains(k) && !gone@.dom().union(
                            fresh@.dom(),
                        ).contains(k);
                    assert(d.contains(k));
                }
            }
            !clear
        },
    }
}

/// A conflict before which there is none is the first.
proof fn lemma_first_conflict(t: TableModel, ks: Seq<u32>, i: int, row: Row, gone: Set<Key>)
    requires
        ascends::<u32>(ks),
        0 <= i < ks.len(),
        forall|c: u32| #[trigger] t.indexes.contains_key(c) ==> ks.contains(c),
        forall|j: int| 0 <= j < i ==> !t.conflict_at(#[trigger] ks[j], row, gone),
        t.conflict_at(ks[i], row, gone),
    ensures
        t.first_conflict(row, gone) == Some(ks[i]),
{
    reveal(TableModel::first_conflict);
    assert forall|d: u32| #[trigger] t.conflict_at(d, row, gone) implies ks[i] <= d by {
        assert(ks.contains(d));
        let j = choose|j: int| 0 <= j < ks.len() && ks[j] == d;
        if j < i {
            assert(!t.conflict_at(ks[j], row, gone));
        } else if i < j {
            assert(u32::before(ks[i], ks[j]));
        }
    }
}

/// Where no index conflicts there is no first conflict.
proof fn lemma_no_conflict(t: TableModel, ks: Seq<u32>, row: Row, gone: Set<Key>)
    requires
        forall|c: u32| #[trigger] t.indexes.contains_key(c) ==> ks.contains(c),
        forall|j: int| 0 <= j < ks.len() ==> !t.conflict_at(#[trigger] ks[j], row, gone),
    ensures
        t.first_conflict(row, gone) is None,
{
    reveal(TableModel::first_conflict);
    assert forall|d: u32| !(#[trigger] t.conflict_at(d, row, gone)) by {
        if t.indexes.contains_key(d) {
            let j = choose|j: int| 0 <= j < ks.len() && ks[j] == d;
            assert(!t.conflict_at(ks[j], row, gone));
        }
    }
}

/// Whether `c` is one of `cols`.
fn contains_col(cols: &Vec<u32>, c: u32) -> (r: bool)
    ensures
        r == cols@.contains(c),
{
    let n: usize = cols.len();
    for i in 0..n
        invariant
            n == cols@.len(),
            forall|j: int| 0 <= j < i ==> cols@[j] != c,
    {
        if cols[i] == c {
            return true;
        }
    }
    false
}

/// A row more keeps the table in order.
pub proof fn lemma_insert_inv(t: TableModel, k: Key, row: Row)
    requires
        t.inv(),
        k == row_key(row),
    ensures
        t.insert(k, row).inv(),
{
    let n = t.insert(k, row);
    assert forall|c: u32| #[trigger] n.indexes.contains_key(c) implies n.indexes[c].col_id == c
        && n.indexes[c].covers(n.rows) by {
        assert(t.indexes.contains_key(c));
    }
}

/// Rows fewer keep the table in order.
pub proof fn lemma_delete_inv(t: TableModel, gone: Set<Key>)
    requires
        t.inv(),
    ensures
        t.delete_all(gone).inv(),
{
    let n = t.delete_all(gone);
    assert(n.rows.dom() =~= t.rows.dom().difference(gone));
    assert forall|c: u32| #[trigger] n.indexes.contains_key(c) implies n.indexes[c].col_id == c
        && n.indexes[c].covers(n.rows) by {
        assert(t.indexes.contains_key(c));
        assert forall|k: Key|
            #![trigger n.rows.contains_key(k)]
            n.rows.contains_key(k) && n.indexes[c].col_id < n.rows[k].len() implies n.indexes[c].entries.contains_key(
            k,
        ) && n.indexes[c].entries[k] == canonical(n.rows[k][n.indexes[c].col_id as int]) by {
            assert(t.rows.contains_key(k));
        }
    }
}

/// What passes one test and then another passes both.
proof fn lemma_filter_twice<A>(
    s: Seq<A>,
    p: spec_fn(A) -> bool,
    q: spec_fn(A) -> bool,
    both: spec_fn(A) -> bool,
)
    requires
        forall|x: A| #[trigger] both(x) == (p(x) && q(x)),
    ensures
        s.filter(p).filter(q) == s.filter(both),
    decreases s.len(),
{
    reveal(Seq::filter);
    if s.len() > 0 {
        lemma_filter_twice(s.drop_last(), p, q, both);
        let front = s.drop_last().filter(p);
        assert(both(s.last()) == (p(s.last()) && q(s.last())));
        if p(s.last()) {
            assert(front.push(s.last()).drop_last() =~= front);
        }
    }
}

/// What all pass is left as it was.
proof fn lemma_filter_all<A>(s: Seq<A>, p: spec_fn(A) -> bool)
    requires
        forall|x: A| #[trigger] p(x),
    ensures
        s.filter(p) == s,
    decreases s.len(),
{
    reveal(Seq::filter);
    if s.len() > 0 {
        lemma_filter_all(s.drop_last(), p);
        assert(s.drop_last().push(s.last()) =~= s);
    }
}

/// A table without no indexes is the table.
pub proof fn lemma_without_none(t: TableModel)
    ensures
        t.without_indexes(Set::empty()) == t,
{
    let cols = t.columns_of_indexes(Set::empty());
    assert(cols =~= Set::<u32>::empty());
    lemma_filter_all(t.schema.indexes, |x: IndexSchemaModel| !cols.contains(x.col_id));
    assert(t.without_indexes(Set::empty()).indexes =~= t.indexes);
}

/// One index fewer.
pub proof fn lemma_without_one_more(t: TableModel, ids: Set<u32>, id: u32)
    ensures
        t.without_indexes(ids).without_index(id) == t.without_indexes(ids.insert(id)),
{
    let mid = t.without_indexes(ids);
    let a = t.columns_of_indexes(ids);
    let b = mid.columns_of_index(id);
    let c = t.columns_of_indexes(ids.insert(id));
    assert(c =~= a.union(b));
    lemma_filter_twice(
        t.schema.indexes,
        |x: IndexSchemaModel| !a.contains(x.col_id),
        |x: IndexSchemaModel| !b.contains(x.col_id),
        |x: IndexSchemaModel| !c.contains(x.col_id),
    );
    assert(mid.without_index(id).indexes =~= t.without_indexes(ids.insert(id)).indexes);
}

/// Indexes fewer keep the table in order.
pub proof fn lemma_without_indexes_inv(t: TableModel, ids: Set<u32>)
    requires
        t.inv(),
    ensures
        t.without_indexes(ids).inv(),
        t.exact() ==> t.without_indexes(ids).exact(),
        t.unique() ==> t.without_indexes(ids).unique(),
{
    let n = t.without_indexes(ids);
    assert forall|c: u32| #[trigger] n.indexes.contains_key(c) implies n.indexes[c].col_id == c
        && n.indexes[c].covers(n.rows) by {
        assert(t.indexes.contains_key(c));
    }
    if t.exact() {
        assert forall|c: u32| #[trigger] n.indexes.contains_key(c) implies n.indexes[c].entries
            == column_of(n.rows, c) by {
            assert(t.indexes.contains_key(c));
        }
    }
    if t.unique() {
        assert forall|c: u32| #[trigger]
            n.indexes.contains_key(c) && n.indexes[c].is_unique implies one_row_per_value(
            n.indexes[c].entries,
        ) by {
            assert(t.indexes.contains_key(c));
        }
    }
}

/// The rows and indexes that are taken in leave committed indexes exact.
pub proof fn lemma_merge_exact(t: TableModel, rows: Map<Key, Row>, gone: Set<Key>)
    requires
        t.inv(),
        t.exact(),
    ensures
        t.insert_all(rows).exact(),
        t.delete_all(gone).exact(),
{
    let a = t.insert_all(rows);
    assert forall|c: u32| #[trigger] a.indexes.contains_key(c) implies a.indexes[c].entries
        == column_of(a.rows, c) by {
        assert(t.indexes.contains_key(c));
        assert(a.indexes[c].entries =~= column_of(a.rows, c));
    }
    let b = t.delete_all(gone);
    assert forall|c: u32| #[trigger] b.indexes.contains_key(c) implies b.indexes[c].entries
        == column_of(b.rows, c) by {
        assert(t.indexes.contains_key(c));
        assert(b.indexes[c].entries =~= column_of(b.rows, c));
    }
}

/// One row more leaves committed indexes exact.
pub proof fn lemma_insert_exact(t: TableModel, k: Key, row: Row)
    requires
        t.inv(),
        t.exact(),
    ensures
        t.insert(k, row).exact(),
{
    let a = t.insert(k, row);
    assert forall|c: u32| #[trigger] a.indexes.contains_key(c) implies a.indexes[c].entries
        == column_of(a.rows, c) by {
        assert(t.indexes.contains_key(c));
        assert(a.indexes[c].entries =~= column_of(a.rows, c));
    }
}

/// Indexes more leave committed indexes exact.
pub proof fn lemma_add_exact(t: TableModel, indexes: Map<u32, IndexModel>)
    requires
        t.inv(),
        t.exact(),
        forall|c: u32| #[trigger] indexes.contains_key(c) ==> indexes[c].col_id == c,
    ensures
        t.add_indexes(indexes).exact(),
{
    let a = t.add_indexes(indexes);
    assert forall|c: u32| #[trigger] a.indexes.contains_key(c) implies a.indexes[c].entries
        == column_of(a.rows, c) by {
        if t.indexes.contains_key(c) {
        } else {
            assert(indexes.contains_key(c));
            assert(a.indexes[c].entries =~= column_of(a.rows, c));
        }
    }
}

/// A row that no unique index stands in the way of leaves every unique index with one row for a
/// value.
pub proof fn lemma_insert_unique(t: TableModel, k: Key, row: Row)
    requires
        t.inv(),
        t.unique(),
        t.first_conflict(row, Set::empty()) is None,
    ensures
        t.insert(k, row).unique(),
{
    reveal(TableModel::first_conflict);
    let n = t.insert(k, row);
    assert forall|c: u32| #[trigger]
        n.indexes.contains_key(c) && n.indexes[c].is_unique implies one_row_per_value(
        n.indexes[c].entries,
    ) by {
        assert(t.indexes.contains_key(c));
        assert(!t.conflict_at(c, row, Set::empty()));
        let old = t.indexes[c];
        let e = n.indexes[c].entries;
        assert forall|i: Key, j: Key|
            #![trigger e.contains_key(i), e.contains_key(j)]
            e.contains_key(i) && e.contains_key(j) && i != j implies e[i] != e[j] by {
            let other = if i == k { j } else { i };
            if c < row.len() && old.entries.contains_key(other) && old.entries[other]
                == canonical(row[c as int]) {
                assert(old.holding(row[c as int]).contains(other));
                assert(!Set::<Key>::empty().contains(other));
            }
            if i != k && j != k {
                assert(old.entries.contains_key(i) && old.entries.contains_key(j));
            }
        }
    }
}

/// Rows fewer leave every unique index with one row for a value.
pub proof fn lemma_delete_unique(t: TableModel, gone: Set<Key>)
    requires
        t.unique(),
    ensures
        t.delete_all(gone).unique(),
{
    let n = t.delete_all(gone);
    assert forall|c: u32| #[trigger]
        n.indexes.contains_key(c) && n.indexes[c].is_unique implies one_row_per_value(
        n.indexes[c].entries,
    ) by {
        assert(t.indexes.contains_key(c));
        let e = n.indexes[c].entries;
        assert forall|i: Key, j: Key|
            #![trigger e.contains_key(i), e.contains_key(j)]
            e.contains_key(i) && e.contains_key(j) && i != j implies e[i] != e[j] by {
            assert(t.indexes[c].entries.contains_key(i) && t.indexes[c].entries.contains_key(j));
        }
    }
}

/// A table with nothing in its indexes is in order.
pub proof fn lemma_emptied_inv(t: TableModel)
    requires
        t.inv(),
    ensures
        t.emptied().inv(),
        t.emptied().unique(),
        forall|rows: Map<Key, Row>| #[trigger] t.emptied().holds_only(rows),
{
    let n = t.emptied();
    assert forall|c: u32| #[trigger] n.indexes.contains_key(c) implies n.indexes[c].col_id == c
        && n.indexes[c].covers(n.rows) by {
        assert(t.indexes.contains_key(c));
    }
}

/// One write more, for one key more.
proof fn lemma_write_step(
    before: Seq<Write>,
    after: Seq<Write>,
    operation: Operation,
    table_id: u32,
    keys: Seq<Key>,
    k: Key,
)
    requires
        after == before.push(after.last()),
        after.last()@ == (WriteModel { operation, set_id: table_id, data_key: k }),
    ensures
        writes_model(after) == writes_model(before).push(after.last()@),
        writes_in_order(operation, table_id, keys.push(k)) == writes_in_order(
            operation,
            table_id,
            keys,
        ).push(after.last()@),
{
    assert(writes_model(after) =~= writes_model(before).push(after.last()@));
    assert(writes_in_order(operation, table_id, keys.push(k)) =~= writes_in_order(
        operation,
        table_id,
        keys,
    ).push(after.last()@));
}

proof fn lemma_insert_none(t: TableModel)
    ensures
        t.insert_all(Map::empty()) == t,
{
    let n = t.insert_all(Map::empty());
    assert(n.rows =~= t.rows);
    assert forall|c: u32| t.indexes.contains_key(c) implies #[trigger] n.indexes[c]
        == t.indexes[c] by {
        assert(n.indexes[c].entries =~= t.indexes[c].entries);
    }
    assert(n.indexes =~= t.indexes);
}

proof fn lemma_insert_one_more(t: TableModel, m: Map<Key, Row>, k: Key, row: Row)
    requires
        !m.contains_key(k),
    ensures
        t.insert_all(m).insert(k, row) == t.insert_all(m.insert(k, row)),
{
    let a = t.insert_all(m).insert(k, row);
    let b = t.insert_all(m.insert(k, row));
    assert(a.rows =~= b.rows);
    assert forall|c: u32| t.indexes.contains_key(c) implies #[trigger] a.indexes[c]
        == b.indexes[c] by {
        assert(a.indexes[c].entries =~= b.indexes[c].entries);
    }
    assert(a.indexes =~= b.indexes);
}

proof fn lemma_delete_none(t: TableModel)
    ensures
        t.delete_all(Set::empty()) == t,
{
    let n = t.delete_all(Set::empty());
    assert(n.rows =~= t.rows);
    assert forall|c: u32| t.indexes.contains_key(c) implies #[trigger] n.indexes[c]
        == t.indexes[c] by {
        assert(n.indexes[c].entries =~= t.indexes[c].entries);
    }
    assert(n.indexes =~= t.indexes);
}

proof fn lemma_delete_one_more(t: TableModel, gone: Set<Key>, k: Key)
    ensures
        t.delete_all(gone).delete_all(set![k]) == t.delete_all(gone.insert(k)),
{
    let a = t.delete_all(gone).delete_all(set![k]);
    let b = t.delete_all(gone.insert(k));
    assert(a.rows =~= b.rows);
    assert forall|c: u32| t.indexes.contains_key(c) implies #[trigger] a.indexes[c]
        == b.indexes[c] by {
        let e = t.indexes[c].entries;
        assert(e.remove_keys(gone).remove_keys(set![k]) =~= e.remove_keys(gone.insert(k)));
    }
    assert(a.indexes =~= b.indexes);
}

} // verus!
