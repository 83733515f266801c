//! Walks over the rows of a table, as a transaction sees them.

use vstd::prelude::*;

use crate::data_key::{lists_in_order, row_ids, Key, RowId};
use crate::datastore::Inner;
use crate::ids::{ColId, TableId};
use crate::model::{holding, holds, matching, RowOp};
use crate::ordered::{
    ascends, in_key_order, lemma_filter_front, lemma_in_key_order, lemma_in_key_order_empty,
    lemma_in_key_order_filter, lemma_in_key_order_part,
};
use crate::range::{RangeModel, ValueRange};
use crate::state::{CommittedState, TxState};
use crate::value::{AlgebraicValue, ProductValue, Row, Value};

verus! {

/// A row that was read and is the reader's own.
pub struct Data {
    data: ProductValue,
}

impl Data {
    pub closed spec fn model(&self) -> Row {
        self.data@
    }

    pub fn view(&self) -> (r: &ProductValue)
        ensures
            r@ == self.model(),
    {
        &self.data
    }
}

/// A row that was read.
pub struct DataRef {
    data: ProductValue,
}

impl DataRef {
    pub closed spec fn model(&self) -> Row {
        self.data@
    }

    pub(crate) fn new(data: ProductValue) -> (r: Self)
        ensures
            r.model() == data@,
    {
        DataRef { data }
    }

    pub fn view(&self) -> (r: &ProductValue)
        ensures
            r@ == self.model(),
    {
        &self.data
    }

    /// The row itself.
    pub(crate) fn into_row(self) -> (r: ProductValue)
        ensures
            r@ == self.model(),
    {
        self.data
    }

    /// The row, as the reader's own.
    pub fn into_data(self) -> (r: Data)
        ensures
            r.model() == self.model(),
    {
        Data { data: self.data }
    }
}

impl Clone for DataRef {
    fn clone(&self) -> (r: Self)
        ensures
            r.model() == self.model(),
    {
        DataRef { data: self.data.clone() }
    }
}

/// What each of `s` is.
pub open spec fn rows_read(s: Seq<ProductValue>) -> Seq<Row> {
    s.map_values(|r: ProductValue| r@)
}

/// The rows of `m` under `keys`.
pub open spec fn rows_under(m: Map<Key, Row>, keys: Seq<Key>) -> Seq<Row> {
    keys.map_values(|k: Key| m[k])
}

/// Where a walk has come to.
enum ScanStage {
    Start,
    Committed { at: usize },
    CurrentTx { at: usize },
}

/// A walk over all rows of a table.
pub struct ScanIter<'a> {
    table_id: TableId,
    inner: &'a Inner,
    stage: ScanStage,
}

impl<'a> ScanIter<'a> {
    spec fn committed_keys(&self) -> Seq<Key> {
        self.inner.committed_state.tables@[self.table_id.0].rows.keys()
    }

    spec fn inserted_keys(&self) -> Seq<Key> {
        self.inner.tx_state->0.insert_tables@[self.table_id.0].rows.keys()
    }

    spec fn left_alone(&self) -> spec_fn(Key) -> bool {
        |k: Key| self.inner@.tx->0.row_op(self.table_id.0, k) == RowOp::Absent
    }

    pub closed spec fn wf(&self) -> bool {
        &&& self.inner.in_tx()
        &&& match self.stage {
            ScanStage::Start => self.inner@.table_exists(self.table_id.0),
            ScanStage::Committed { at } => {
                &&& self.inner@.has_base(self.table_id.0)
                &&& at <= self.committed_keys().len()
            },
            ScanStage::CurrentTx { at } => {
                &&& self.inner@.has_inserts(self.table_id.0)
                &&& at <= self.inserted_keys().len()
            },
        }
    }

    /// The rows still to come.
    pub closed spec fn remaining(&self) -> Seq<Row> {
        let t = self.table_id.0;
        match self.stage {
            ScanStage::Start => self.inner@.scan(t)->Ok_0,
            ScanStage::Committed { at } => rows_under(
                self.inner@.stored(t),
                self.committed_keys().skip(at as int).filter(self.left_alone()),
            ) + in_key_order::<RowId, Row>(self.inner@.fresh(t)),
            ScanStage::CurrentTx { at } => rows_under(
                self.inner@.fresh(t),
                self.inserted_keys().skip(at as int),
            ),
        }
    }

    pub(crate) fn new(table_id: TableId, inner: &'a Inner) -> (r: Self)
        requires
            inner.in_tx(),
            inner@.table_exists(table_id.0),
        ensures
            r.wf(),
            r.remaining() == inner@.scan(table_id.0)->Ok_0,
    {
        ScanIter { table_id, inner, stage: ScanStage::Start }
    }

    proof fn lemma_committed_start(&self)
        requires
            self.inner.in_tx(),
            self.inner@.has_base(self.table_id.0),
        ensures
            rows_under(
                self.inner@.stored(self.table_id.0),
                self.committed_keys().skip(0).filter(self.left_alone()),
            ) == in_key_order::<RowId, Row>(self.inner@.kept(self.table_id.0)),
    {
        let t = self.table_id.0;
        let ks = self.committed_keys();
        let m = self.inner@.stored(t);
        let p = self.left_alone();
        let table = self.inner.committed_state.tables@[t];
        assert(self.inner.committed_state.tables@.contains_key(t));
        table.rows.lemma_keys();
        assert(m.dom() =~= ks.to_set());
        let d = Set::new(
            |k: Key|
                m.contains_key(k) && self.inner@.tx->0.row_op(t, k) == RowOp::Absent,
        );
        assert forall|k: Key| d.contains(k) <==> ks.contains(k) && p(k) by {
            assert(ks.to_set().contains(k) <==> m.contains_key(k));
        }
        lemma_in_key_order_part::<RowId, Row>(ks, m, p, d);
        assert(ks.skip(0) =~= ks);
    }

    proof fn lemma_inserted_start(&self)
        requires
            self.inner.in_tx(),
            self.inner@.has_inserts(self.table_id.0),
        ensures
            rows_under(self.inner@.fresh(self.table_id.0), self.inserted_keys().skip(0))
                == in_key_order::<RowId, Row>(self.inner@.fresh(self.table_id.0)),
    {
        let t = self.table_id.0;
        let ks = self.inserted_keys();
        let m = self.inner@.fresh(t);
        let table = self.inner.tx_state->0.insert_tables@[t];
        assert(self.inner.tx_state->0.insert_tables@.contains_key(t));
        table.rows.lemma_keys();
        assert(m.dom() =~= ks.to_set());
        lemma_in_key_order::<RowId, Row>(ks, m);
        assert(ks.skip(0) =~= ks);
    }

    /// The next row.
    pub fn next(&mut self) -> (r: Option<DataRef>)
        requires
            old(self).wf(),
        ensures
            final(self).wf(),
            match r {
                Some(row) => {
                    &&& old(self).remaining().len() > 0
                    &&& row.model() == old(self).remaining()[0]
                    &&& final(self).remaining() == old(self).remaining().skip(1)
                },
                None => old(self).remaining().len() == 0 && final(self).remaining().len() == 0,
            },
    {
        let ghost t = self.table_id.0;
        let ghost all = self.remaining();
        if let ScanStage::Start = self.stage {
            if self.inner.base_table(&self.table_id).is_some() {
                self.stage = ScanStage::Committed { at: 0 };
                proof {
                    self.lemma_committed_start();
                }
            } else {
                self.stage = ScanStage::CurrentTx { at: 0 };
                proof {
                    self.lemma_inserted_start();
                    assert(self.inner@.kept(t).dom() =~= Set::<Key>::empty());
                    lemma_in_key_order_empty::<RowId, Row>(self.inner@.kept(t));
                    assert(all =~= self.remaining());
                }
            }
        }
        assert(self.remaining() == all);
        if let ScanStage::Committed { at } = self.stage {
            match self.inner.base_table(&self.table_id) {
                Some(table) => {
                    let mut at: usize = at;
                    let n: usize = table.rows.len();
                    let ghost ks = self.committed_keys();
                    let ghost p = self.left_alone();
                    let ghost fresh = in_key_order::<RowId, Row>(self.inner@.fresh(t));
                    let ghost stored = self.inner@.stored(t);
                    while at < n
                        invariant
                            self.wf(),
                            self.inner.committed_state.tables@.contains_key(t),
                            *table == self.inner.committed_state.tables@[t],
                            table.wf(),
                            n == ks.len(),
                            at <= n,
                            t == self.table_id.0,
                            ks == self.committed_keys(),
                            p == self.left_alone(),
                            stored == self.inner@.stored(t),
                            stored == table@.rows,
                            fresh == in_key_order::<RowId, Row>(self.inner@.fresh(t)),
                            self.stage is Committed,
                            self.inner == old(self).inner,
                            self.table_id == old(self).table_id,
                            all == old(self).remaining(),
                            all == rows_under(stored, ks.skip(at as int).filter(p)) + fresh,
                        decreases n - at,
                    {
                        let row_id = table.rows.key_at(at);
                        proof {
                            table.rows.lemma_keys();
                            lemma_filter_front(ks.skip(at as int), p);
                            assert(ks.skip(at as int).skip(1) =~= ks.skip(at + 1));
                            assert(ks.skip(at as int)[0] == ks[at as int]);
                            assert(table.rows@.contains_key(ks[at as int]));
                        }
                        match self.inner.tx().get_row_op(&self.table_id, row_id) {
                            RowOp::Insert => {},
                            RowOp::Delete => {},
                            RowOp::Absent => {
                                let row = table.rows.value_at(at);
                                self.stage = ScanStage::Committed { at: at + 1 };
                                proof {
                                    let rest = ks.skip(at + 1).filter(p);
                                    assert(rows_under(stored, seq![ks[at as int]] + rest) =~= seq![
                                        stored[ks[at as int]],
                                    ] + rows_under(stored, rest));
                                    assert(all.skip(1) =~= self.remaining());
                                }
                                return Some(DataRef::new(row.clone()));
                            },
                        }
                        at = at + 1;
                    }
                    proof {
                        lemma_filter_front(ks.skip(at as int), p);
                        assert(all =~= fresh);
                    }
                    if self.inner.tx().insert_tables.contains_key(&self.table_id.0) {
                        self.stage = ScanStage::CurrentTx { at: 0 };
                        proof {
                            self.lemma_inserted_start();
                        }
                    } else {
                        proof {
                            lemma_in_key_order_empty::<RowId, Row>(self.inner@.fresh(t));
                        }
                        self.stage = ScanStage::Committed { at: n };
                        assert(self.remaining() =~= Seq::<Row>::empty());
                        return None;
                    }
                },
                None => {
                    assert(false);
                    return None;
                },
            }
        }
        assert(self.remaining() =~= all);
        if let ScanStage::CurrentTx { at } = self.stage {
            match self.inner.tx().get_insert_table(&self.table_id) {
                Some(table) => {
                    let ghost ks = self.inserted_keys();
                    if at < table.rows.len() {
                        proof {
                            assert(ks == table.rows.keys());
                            table.rows.lemma_keys();
                            assert(table.rows@.contains_key(ks[at as int]));
                        }
                        let row = table.rows.value_at(at);
                        self.stage = ScanStage::CurrentTx { at: at + 1 };
                        assert(all.skip(1) =~= self.remaining());
                        return Some(DataRef::new(row.clone()));
                    }
                },
                None => {},
            }
        }
        None
    }

    /// All rows still to come.
    pub fn collect(self) -> (r: Vec<ProductValue>)
        requires
            self.wf(),
        ensures
            rows_read(r@) == self.remaining(),
    {
        let ghost all = self.remaining();
        let mut iter = self;
        let mut rows: Vec<ProductValue> = Vec::new();
        assert(rows_read(rows@) + all =~= all);
        loop
            invariant
                iter.wf(),
                rows_read(rows@) + iter.remaining() == all,
            ensures
                rows_read(rows@) == all,
            decreases iter.remaining().len(),
        {
            let ghost before = rows@;
            let ghost rest = iter.remaining();
            match iter.next() {
                Some(row) => {
                    rows.push(row.into_row());
                    assert(rows_read(rows@) =~= rows_read(before).push(rest[0]));
                    assert(rows_read(rows@) + rest.skip(1) =~= all);
                },
                None => {
                    assert(rows_read(rows@) =~= all);
                    break;
                },
            }
        }
        rows
    }
}

/// The rows that `q` holds of, among the rows of `m` under those of `ks` that `p` holds of.
proof fn lemma_candidates(
    ks: Seq<Key>,
    m: Map<Key, Row>,
    p: spec_fn(Key) -> bool,
    q: spec_fn(Row) -> bool,
    want: Map<Key, Row>,
)
    requires
        ascends::<RowId>(ks),
        forall|k: Key| ks.contains(k) && p(k) ==> m.contains_key(k),
        forall|k: Key| #[trigger]
            want.contains_key(k) <==> ks.contains(k) && p(k) && q(m[k]),
        forall|k: Key| #[trigger] want.contains_key(k) ==> want[k] == m[k],
    ensures
        rows_under(m, ks.filter(p)).filter(q) == in_key_order::<RowId, Row>(want),
{
    let d = Set::new(|k: Key| ks.contains(k) && p(k));
    lemma_in_key_order_part::<RowId, Row>(ks, m, p, d);
    let part = m.restrict(d);
    let e = Set::new(|k: Key| part.contains_key(k) && q(part[k]));
    lemma_in_key_order_filter::<RowId, Row>(ks.filter(p), part, q, e);
    assert forall|k: Key| want.contains_key(k) <==> #[trigger] part.restrict(e).contains_key(k) by {
        assert(part.contains_key(k) <==> d.contains(k));
    }
    assert(part.restrict(e) =~= want);
}

/// A walk over the rows of a table that hold a value in a column, by walking over all rows.
pub struct ScanSeekIter<'a> {
    scan_iter: ScanIter<'a>,
    col_id: ColId,
    value: &'a AlgebraicValue,
}

/// Whether a row has column `c`, with `v` in it.
pub open spec fn holder(c: u32, v: Value) -> spec_fn(Row) -> bool {
    |r: Row| holds(r, c, v)
}

/// Whether `row` has column `col_id`, with `value` in it.
fn row_holds(row: &ProductValue, col_id: ColId, value: &AlgebraicValue) -> (r: bool)
    ensures
        r == holds(row@, col_id.0, value@),
{
    if (col_id.0 as usize) < row.elements.len() {
        assert(row@[col_id.0 as int] == row.elements@[col_id.0 as int]@);
        row.elements[col_id.0 as usize].same(value)
    } else {
        false
    }
}

impl<'a> ScanSeekIter<'a> {
    pub closed spec fn wf(&self) -> bool {
        self.scan_iter.wf()
    }

    /// The rows still to come.
    pub closed spec fn remaining(&self) -> Seq<Row> {
        self.scan_iter.remaining().filter(holder(self.col_id.0, self.value@))
    }

    pub(crate) fn new(
        inner: &'a Inner,
        table_id: TableId,
        col_id: ColId,
        value: &'a AlgebraicValue,
    ) -> (r: Self)
        requires
            inner.in_tx(),
            inner@.table_exists(table_id.0),
        ensures
            r.wf(),
            r.remaining() == matching(inner@.kept(table_id.0), col_id.0, value@) + matching(
                inner@.fresh(table_id.0),
                col_id.0,
                value@,
            ),
    {
        let r = ScanSeekIter { scan_iter: ScanIter::new(table_id, inner), col_id, value };
        proof {
            let t = table_id.0;
            let q = holder(col_id.0, value@);
            let kept = inner@.kept(t);
            let fresh = inner@.fresh(t);
            lemma_kept_in_order(inner, t, q, holding(kept, col_id.0, value@));
            lemma_fresh_in_order(inner, t, q, holding(fresh, col_id.0, value@));
            Seq::filter_distributes_over_add(
                in_key_order::<RowId, Row>(kept),
                in_key_order::<RowId, Row>(fresh),
                q,
            );
        }
        r
    }

    /// The next row.
    pub fn next(&mut self) -> (r: Option<DataRef>)
        requires
            old(self).wf(),
        ensures
            final(self).wf(),
            match r {
                Some(row) => {
                    &&& old(self).remaining().len() > 0
                    &&& row.model() == old(self).remaining()[0]
                    &&& final(self).remaining() == old(self).remaining().skip(1)
                },
                None => old(self).remaining().len() == 0 && final(self).remaining().len() == 0,
            },
    {
        let ghost all = self.remaining();
        let ghost q = holder(self.col_id.0, self.value@);
        loop
            invariant
                self.wf(),
                self.remaining() == all,
                all == old(self).remaining(),
                q == holder(self.col_id.0, self.value@),
                self.col_id == old(self).col_id,
                self.value == old(self).value,
            decreases self.scan_iter.remaining().len(),
        {
            let ghost rest = self.scan_iter.remaining();
            proof {
                lemma_filter_front(rest, q);
            }
            match self.scan_iter.next() {
                Some(row) => {
                    if row_holds(row.view(), self.col_id, self.value) {
                        assert(all.skip(1) =~= self.remaining());
                        return Some(row);
                    }
                },
                None => {
                    proof {
                        lemma_filter_front(self.scan_iter.remaining(), q);
                    }
                    return None;
                },
            }
        }
    }
}

/// The rows left alone that `q` holds of.
proof fn lemma_kept_in_order(
    inner: &Inner,
    t: u32,
    q: spec_fn(Row) -> bool,
    want: Map<Key, Row>,
)
    requires
        inner.in_tx(),
        forall|k: Key| #[trigger]
            want.contains_key(k) <==> inner@.kept(t).contains_key(k) && q(inner@.kept(t)[k]),
        forall|k: Key| #[trigger] want.contains_key(k) ==> want[k] == inner@.kept(t)[k],
    ensures
        in_key_order::<RowId, Row>(inner@.kept(t)).filter(q) == in_key_order::<RowId, Row>(want),
{
    let m = inner@.stored(t);
    let kept = inner@.kept(t);
    let p = |k: Key| kept.contains_key(k);
    let ks = if inner@.has_base(t) {
        let table = inner.committed_state.tables@[t];
        assert(inner.committed_state.tables@.contains_key(t));
        table.rows.lemma_keys();
        assert(m.dom() =~= table.rows.keys().to_set());
        table.rows.keys()
    } else {
        assert(m.dom() =~= Seq::<Key>::empty().to_set());
        Seq::<Key>::empty()
    };
    assert forall|k: Key| kept.dom().contains(k) <==> ks.contains(k) && p(k) by {
        assert(ks.to_set().contains(k) <==> m.contains_key(k));
    }
    lemma_in_key_order_part::<RowId, Row>(ks, m, p, kept.dom());
    assert(m.restrict(kept.dom()) =~= kept);
    lemma_in_key_order_filter::<RowId, Row>(ks.filter(p), kept, q, want.dom());
    assert(kept.restrict(want.dom()) =~= want);
}

/// The inserted rows that `q` holds of.
proof fn lemma_fresh_in_order(
    inner: &Inner,
    t: u32,
    q: spec_fn(Row) -> bool,
    want: Map<Key, Row>,
)
    requires
        inner.in_tx(),
        forall|k: Key| #[trigger]
            want.contains_key(k) <==> inner@.fresh(t).contains_key(k) && q(inner@.fresh(t)[k]),
        forall|k: Key| #[trigger] want.contains_key(k) ==> want[k] == inner@.fresh(t)[k],
    ensures
        in_key_order::<RowId, Row>(inner@.fresh(t)).filter(q) == in_key_order::<RowId, Row>(want),
{
    let m = inner@.fresh(t);
    let ks = if inner@.has_inserts(t) {
        let table = inner.tx_state->0.insert_tables@[t];
        assert(inner.tx_state->0.insert_tables@.contains_key(t));
        table.rows.lemma_keys();
        assert(m.dom() =~= table.rows.keys().to_set());
        table.rows.keys()
    } else {
        assert(m.dom() =~= Seq::<Key>::empty().to_set());
        Seq::<Key>::empty()
    };
    lemma_in_key_order_filter::<RowId, Row>(ks, m, q, want.dom());
    assert(m.restrict(want.dom()) =~= want);
}

/// A walk over the rows that indexes point at.
struct IndexSeekIterInner<'a> {
    table_id: TableId,
    tx_state: &'a TxState,
    committed_state: &'a CommittedState,
    inserted_rows: Vec<RowId>,
    inserted_at: usize,
    committed_rows: Vec<RowId>,
    committed_at: usize,
}

impl<'a> IndexSeekIterInner<'a> {
    spec fn wf(&self) -> bool {
        &&& self.tx_state.wf()
        &&& self.committed_state.wf()
        &&& self.inserted_at <= self.inserted_rows@.len()
        &&& self.committed_at <= self.committed_rows@.len()
    }

    spec fn stored(&self) -> Map<Key, Row> {
        if self.committed_state@.contains_key(self.table_id.0) && !self.tx_state@.dropped.contains(
            self.table_id.0,
        ) {
            self.committed_state@[self.table_id.0].rows
        } else {
            Map::empty()
        }
    }

    spec fn is_inserted(&self) -> spec_fn(Key) -> bool {
        |k: Key| self.tx_state@.fresh(self.table_id.0).contains_key(k)
    }

    spec fn left_alone(&self) -> spec_fn(Key) -> bool {
        |k: Key|
            self.stored().contains_key(k) && self.tx_state@.row_op(self.table_id.0, k)
                == RowOp::Absent
    }

    spec fn inserted_left(&self) -> Seq<Row> {
        rows_under(
            self.tx_state@.fresh(self.table_id.0),
            row_ids(self.inserted_rows@).skip(self.inserted_at as int).filter(self.is_inserted()),
        )
    }

    spec fn committed_left(&self) -> Seq<Row> {
        rows_under(
            self.stored(),
            row_ids(self.committed_rows@).skip(self.committed_at as int).filter(
                self.left_alone(),
            ),
        )
    }

    /// The rows still to come.
    spec fn remaining(&self) -> Seq<Row> {
        self.inserted_left() + self.committed_left()
    }

    fn next(&mut self) -> (r: Option<DataRef>)
        requires
            old(self).wf(),
        ensures
            final(self).wf(),
            match r {
                Some(row) => {
                    &&& old(self).remaining().len() > 0
                    &&& row.model() == old(self).remaining()[0]
                    &&& final(self).remaining() == old(self).remaining().skip(1)
                },
                None => old(self).remaining().len() == 0 && final(self).remaining().len() == 0,
            },
    {
        let ghost all = self.remaining();
        let ghost ins = row_ids(self.inserted_rows@);
        let ghost com = row_ids(self.committed_rows@);
        while self.inserted_at < self.inserted_rows.len()
            invariant
                self.wf(),
                self.remaining() == all,
                all == old(self).remaining(),
                ins == row_ids(self.inserted_rows@),
                com == row_ids(self.committed_rows@),
            decreases self.inserted_rows@.len() - self.inserted_at,
        {
            let ghost at = self.inserted_at as int;
            let ghost fresh = self.tx_state@.fresh(self.table_id.0);
            let ghost p = self.is_inserted();
            proof {
                lemma_filter_front(ins.skip(at), p);
                assert(ins.skip(at).skip(1) =~= ins.skip(at + 1));
                assert(ins.skip(at)[0] == ins[at]);
                let rest = ins.skip(at + 1).filter(p);
                assert(rows_under(fresh, seq![ins[at]] + rest) =~= seq![fresh[ins[at]]]
                    + rows_under(fresh, rest));
            }
            let row_id = &self.inserted_rows[self.inserted_at];
            assert(row_id@ == ins[at]);
            let found = self.tx_state.get_row(&self.table_id, row_id);
            self.inserted_at = self.inserted_at + 1;
            assert(self.is_inserted() == p);
            proof {
                assert(self.tx_state@.inv());
                assert(fresh.contains_key(ins[at]) ==> !self.tx_state@.deleted(
                    self.table_id.0,
                ).contains(ins[at]));
            }
            match found {
                Some(row) => {
                    assert(all.skip(1) =~= self.remaining());
                    return Some(DataRef::new(row.clone()));
                },
                None => {},
            }
        }
        proof {
            lemma_filter_front(ins.skip(self.inserted_at as int), self.is_inserted());
            assert(all =~= self.committed_left());
        }
        while self.committed_at < self.committed_rows.len()
            invariant
                self.wf(),
                self.inserted_at == self.inserted_rows@.len(),
                self.inserted_left().len() == 0,
                self.committed_left() == all,
                all == old(self).remaining(),
                com == row_ids(self.committed_rows@),
            decreases self.committed_rows@.len() - self.committed_at,
        {
            let ghost at = self.committed_at as int;
            let ghost stored = self.stored();
            let ghost p = self.left_alone();
            proof {
                lemma_filter_front(com.skip(at), p);
                assert(com.skip(at).skip(1) =~= com.skip(at + 1));
                assert(com.skip(at)[0] == com[at]);
                let rest = com.skip(at + 1).filter(p);
                assert(rows_under(stored, seq![com[at]] + rest) =~= seq![stored[com[at]]]
                    + rows_under(stored, rest));
            }
            let row_id = &self.committed_rows[self.committed_at];
            assert(row_id@ == com[at]);
            let op = self.tx_state.get_row_op(&self.table_id, row_id);
            let found = if self.tx_state.dropped.contains_key(&self.table_id.0) {
                None
            } else {
                match self.committed_state.tables.get(&self.table_id.0) {
                    Some(table) => table.get_row(row_id),
                    None => None,
                }
            };
            self.committed_at = self.committed_at + 1;
            assert(self.left_alone() == p);
            assert(self.stored() == stored);
            match (op, found) {
                (RowOp::Absent, Some(row)) => {
                    assert(all.skip(1) =~= self.remaining());
                    return Some(DataRef::new(row.clone()));
                },
                _ => {},
            }
        }
        proof {
            lemma_filter_front(com.skip(self.committed_at as int), self.left_alone());
        }
        None
    }
}

/// A walk over the rows of a table that hold a value in a column, by the column's index.
pub struct IndexSeekIter<'a> {
    iter: IndexSeekIterInner<'a>,
    col_id: ColId,
    value: &'a AlgebraicValue,
}

/// The ids of all rows of a committed table.
fn committed_row_ids(committed_state: &CommittedState, table_id: &TableId) -> (r: Vec<RowId>)
    requires
        committed_state.wf(),
    ensures
        committed_state@.contains_key(table_id.0) ==> lists_in_order(
            r@,
            committed_state@[table_id.0].rows.dom(),
        ),
        !committed_state@.contains_key(table_id.0) ==> r@.len() == 0,
{
    let mut r: Vec<RowId> = Vec::new();
    match committed_state.tables.get(&table_id.0) {
        Some(table) => {
            let ghost ks = table.rows.keys();
            proof {
                table.rows.lemma_keys();
            }
            let n: usize = table.rows.len();
            for i in 0..n
                invariant
                    n == ks.len(),
                    ks == table.rows.keys(),
                    row_ids(r@) == ks.take(i as int),
            {
                let ghost before = r@;
                r.push(table.rows.key_at(i).clone());
                assert(row_ids(r@) =~= row_ids(before).push(ks[i as int]));
                assert(ks.take(i + 1) =~= ks.take(i as int).push(ks[i as int]));
            }
            proof {
                assert(ks.take(ks.len() as int) =~= ks);
                assert(committed_state@[table_id.0].rows.dom() =~= table.rows@.dom());
            }
        },
        None => {},
    }
    r
}

impl<'a> IndexSeekIter<'a> {
    pub closed spec fn wf(&self) -> bool {
        self.iter.wf()
    }

    /// The rows still to come.
    pub closed spec fn remaining(&self) -> Seq<Row> {
        self.iter.remaining().filter(holder(self.col_id.0, self.value@))
    }

    pub(crate) fn new(
        inner: &'a Inner,
        table_id: TableId,
        col_id: ColId,
        value: &'a AlgebraicValue,
        inserted_rows: Vec<RowId>,
    ) -> (r: Self)
        requires
            inner.in_tx(),
            inner@.has_inserts(table_id.0),
            inner@.inserts(table_id.0).indexes.contains_key(col_id.0),
            lists_in_order(
                inserted_rows@,
                inner@.inserts(table_id.0).indexes[col_id.0].holding(value@),
            ),
        ensures
            r.wf(),
            r.remaining() == matching(inner@.fresh(table_id.0), col_id.0, value@) + matching(
                inner@.kept(table_id.0),
                col_id.0,
                value@,
            ),
    {
        let committed_rows = match inner.committed_state.index_seek(&table_id, &col_id, value) {
            Some(ids) => ids,
            None => committed_row_ids(&inner.committed_state, &table_id),
        };
        let iter = IndexSeekIterInner {
            table_id,
            tx_state: inner.tx(),
            committed_state: &inner.committed_state,
            inserted_rows,
            inserted_at: 0,
            committed_rows,
            committed_at: 0,
        };
        let r = IndexSeekIter { iter, col_id, value };
        proof {
            let t = table_id.0;
            let c = col_id.0;
            let q = holder(c, value@);
            let fresh = inner@.fresh(t);
            let kept = inner@.kept(t);
            let stored = inner@.stored(t);
            let ins = row_ids(inserted_rows@);
            let com = row_ids(committed_rows@);
            let index = inner@.inserts(t).indexes[c];
            assert(ins.skip(0) =~= ins);
            assert(com.skip(0) =~= com);
            assert(inner@.inserts(t).inv());
            assert(index.covers(fresh));
            let want = holding(fresh, c, value@);
            assert forall|k: Key| #[trigger] want.contains_key(k) <==> ins.contains(k)
                && (r.iter.is_inserted())(k) && q(fresh[k]) by {
                assert(ins.to_set().contains(k) <==> index.holding(value@).contains(k));
            }
            lemma_candidates(ins, fresh, r.iter.is_inserted(), q, want);
            let want = holding(kept, c, value@);
            let p = r.iter.left_alone();
            assert forall|k: Key| #[trigger] want.contains_key(k) <==> com.contains(k) && p(k)
                && q(stored[k]) by {
                if inner@.has_base(t) {
                    assert(inner.committed_state.tables@.contains_key(t));
                    assert(inner@.committed[t].inv());
                    if inner@.committed[t].indexes.contains_key(c) {
                        assert(inner@.committed[t].indexes[c].covers(stored));
                        assert(com.to_set().contains(k) <==> inner@.committed[t].indexes[c].holding(
                            value@,
                        ).contains(k));
                    } else {
                        assert(com.to_set().contains(k) <==> stored.contains_key(k));
                    }
                }
            }
            assert(ascends::<RowId>(com));
            lemma_candidates(com, stored, p, q, want);
            Seq::filter_distributes_over_add(
                r.iter.inserted_left(),
                r.iter.committed_left(),
                q,
            );
        }
        r
    }

    /// The next row.
    pub fn next(&mut self) -> (r: Option<DataRef>)
        requires
            old(self).wf(),
        ensures
            final(self).wf(),
            match r {
                Some(row) => {
                    &&& old(self).remaining().len() > 0
                    &&& row.model() == old(self).remaining()[0]
                    &&& final(self).remaining() == old(self).remaining().skip(1)
                },
                None => old(self).remaining().len() == 0 && final(self).remaining().len() == 0,
            },
    {
        let ghost all = self.remaining();
        let ghost q = holder(self.col_id.0, self.value@);
        loop
            invariant
                self.wf(),
                self.remaining() == all,
                all == old(self).remaining(),
                q == holder(self.col_id.0, self.value@),
                self.col_id == old(self).col_id,
                self.value == old(self).value,
            decreases self.iter.remaining().len(),
        {
            let ghost rest = self.iter.remaining();
            proof {
                lemma_filter_front(rest, q);
            }
            match self.iter.next() {
                Some(row) => {
                    if row_holds(row.view(), self.col_id, self.value) {
                        assert(all.skip(1) =~= self.remaining());
                        return Some(row);
                    }
                },
                None => {
                    proof {
                        lemma_filter_front(self.iter.remaining(), q);
                    }
                    return None;
                },
            }
        }
    }
}

/// A walk over the rows of a table that hold a value in a column.
pub enum SeekIter<'a> {
    Scan(ScanSeekIter<'a>),
    Index(IndexSeekIter<'a>),
}

impl<'a> SeekIter<'a> {
    pub open spec fn wf(&self) -> bool {
        match self {
            SeekIter::Scan(seek) => seek.wf(),
            SeekIter::Index(seek) => seek.wf(),
        }
    }

    /// The rows still to come.
    pub open spec fn remaining(&self) -> Seq<Row> {
        match self {
            SeekIter::Scan(seek) => seek.remaining(),
            SeekIter::Index(seek) => seek.remaining(),
        }
    }

    /// The next row.
    pub fn next(&mut self) -> (r: Option<DataRef>)
        requires
            old(self).wf(),
        ensures
            final(self).wf(),
            match r {
                Some(row) => {
                    &&& old(self).remaining().len() > 0
                    &&& row.model() == old(self).remaining()[0]
                    &&& final(self).remaining() == old(self).remaining().skip(1)
                },
                None => old(self).remaining().len() == 0 && final(self).remaining().len() == 0,
            },
    {
        match self {
            SeekIter::Scan(seek) => seek.next(),
            SeekIter::Index(seek) => seek.next(),
        }
    }

    /// All rows still to come.
    pub fn collect(self) -> (r: Vec<ProductValue>)
        requires
            self.wf(),
        ensures
            rows_read(r@) == self.remaining(),
    {
        let ghost all = self.remaining();
        let mut iter = self;
        let mut rows: Vec<ProductValue> = Vec::new();
        assert(rows_read(rows@) + all =~= all);
        loop
            invariant
                iter.wf(),
                rows_read(rows@) + iter.remaining() == all,
            ensures
                rows_read(rows@) == all,
            decreases iter.remaining().len(),
        {
            let ghost before = rows@;
            let ghost rest = iter.remaining();
            match iter.next() {
                Some(row) => {
                    rows.push(row.into_row());
                    assert(rows_read(rows@) =~= rows_read(before).push(rest[0]));
                    assert(rows_read(rows@) + rest.skip(1) =~= all);
                },
                None => {
                    assert(rows_read(rows@) =~= all);
                    break;
                },
            }
        }
        rows
    }
}

/// Whether a row has column `c`, with a value of `range` in it.
pub open spec fn in_range(c: u32, range: RangeModel) -> spec_fn(Row) -> bool {
    |r: Row| c < r.len() && range.contains(r[c as int])
}

/// A walk over the rows of a table with a value of a range in a column, by walking over all rows.
pub struct ScanRangeScanIter<'a> {
    scan_iter: ScanIter<'a>,
    col_id: ColId,
    range: ValueRange,
}

impl<'a> ScanRangeScanIter<'a> {
    pub closed spec fn wf(&self) -> bool {
        self.scan_iter.wf()
    }

    /// The rows still to come.
    pub closed spec fn remaining(&self) -> Seq<Row> {
        self.scan_iter.remaining().filter(in_range(self.col_id.0, self.range@))
    }

    pub(crate) fn new(scan_iter: ScanIter<'a>, col_id: ColId, range: ValueRange) -> (r: Self)
        requires
            scan_iter.wf(),
        ensures
            r.wf(),
            r.remaining() == scan_iter.remaining().filter(in_range(col_id.0, range@)),
    {
        ScanRangeScanIter { scan_iter, col_id, range }
    }

    /// The next row.
    pub fn next(&mut self) -> (r: Option<DataRef>)
        requires
            old(self).wf(),
        ensures
            final(self).wf(),
            match r {
                Some(row) => {
                    &&& old(self).remaining().len() > 0
                    &&& row.model() == old(self).remaining()[0]
                    &&& final(self).remaining() == old(self).remaining().skip(1)
                },
                None => old(self).remaining().len() == 0 && final(self).remaining().len() == 0,
            },
    {
        let ghost all = self.remaining();
        let ghost q = in_range(self.col_id.0, self.range@);
        loop
            invariant
                self.wf(),
                self.remaining() == all,
                all == old(self).remaining(),
                q == in_range(self.col_id.0, self.range@),
                self.col_id == old(self).col_id,
                self.range == old(self).range,
            decreases self.scan_iter.remaining().len(),
        {
            let ghost rest = self.scan_iter.remaining();
            proof {
                lemma_filter_front(rest, q);
            }
            match self.scan_iter.next() {
                Some(row) => {
                    let elements = &row.view().elements;
                    let ghost m = row.model();
                    assert(m.len() == elements@.len());
                    if (self.col_id.0 as usize) < elements.len() {
                        assert(m[self.col_id.0 as int] == elements@[self.col_id.0 as int]@);
                        if self.range.contains(&elements[self.col_id.0 as usize]) {
                            assert(all.skip(1) =~= self.remaining());
                            return Some(row);
                        }
                    }
                },
                None => {
                    proof {
                        lemma_filter_front(self.scan_iter.remaining(), q);
                    }
                    return None;
                },
            }
        }
    }
}

/// A walk over the rows of a table with a value of a range in a column.
pub enum RangeScanIter<'a> {
    Scan(ScanRangeScanIter<'a>),
}

impl<'a> RangeScanIter<'a> {
    pub open spec fn wf(&self) -> bool {
        match self {
            RangeScanIter::Scan(range) => range.wf(),
        }
    }

    /// The rows still to come.
    pub open spec fn remaining(&self) -> Seq<Row> {
        match self {
            RangeScanIter::Scan(range) => range.remaining(),
        }
    }

    /// The next row.
    pub fn next(&mut self) -> (r: Option<DataRef>)
        requires
            old(self).wf(),
        ensures
            final(self).wf(),
            match r {
                Some(row) => {
                    &&& old(self).remaining().len() > 0
                    &&& row.model() == old(self).remaining()[0]
                    &&& final(self).remaining() == old(self).remaining().skip(1)
                },
                None => old(self).remaining().len() == 0 && final(self).remaining().len() == 0,
            },
    {
        match self {
            RangeScanIter::Scan(range) => range.next(),
        }
    }

    /// All rows still to come.
    pub fn collect(self) -> (r: Vec<ProductValue>)
        requires
            self.wf(),
        ensures
            rows_read(r@) == self.remaining(),
    {
        let ghost all = self.remaining();
        let mut iter = self;
        let mut rows: Vec<ProductValue> = Vec::new();
        assert(rows_read(rows@) + all =~= all);
        loop
            invariant
                iter.wf(),
                rows_read(rows@) + iter.remaining() == all,
            ensures
                rows_read(rows@) == all,
            decreases iter.remaining().len(),
        {
            let ghost before = rows@;
            let ghost rest = iter.remaining();
            match iter.next() {
                Some(row) => {
                    rows.push(row.into_row());
                    assert(rows_read(rows@) =~= rows_read(before).push(rest[0]));
                    assert(rows_read(rows@) + rest.skip(1) =~= all);
                },
                None => {
                    assert(rows_read(rows@) =~= all);
                    break;
                },
            }
        }
        rows
    }
}

impl From<Data> for ProductValue {
    fn from(data: Data) -> (r: ProductValue) {
        data.data
    }
}

impl vstd::std_specs::convert::FromSpecImpl<Data> for ProductValue {
    open spec fn obeys_from_spec() -> bool {
        true
    }

    closed spec fn from_spec(data: Data) -> ProductValue {
        data.data
    }
}

} // verus!
