# tx_datastore

A transactional, in-memory datastore that keeps its own catalogue. One transaction has the
datastore at a time. It sees its own inserts, deletes and drops, and commits or rolls back all of
them: a table, an index or a sequence that it dropped is there again after a rollback, and one that
it made is not. What is not taken back are the numbers that sequences have given out, and the bytes
that are known by their keys. A sequence that was allocated more in a transaction that is rolled
back has nothing left of its allocation. Tables, columns, indexes and sequences are listed in four
system tables, which list themselves.

The library in `src/` is verified with Verus:

- `model` says what the datastore is and what each operation makes of it; every operation in
  `datastore`, `catalogue`, `insert`, `operations`, `bootstrap` and `locking` is proved to do that.
- `laws` states what holds across operations on rows, `definition_laws` and `drop_laws` what holds
  of tables and indexes that are made and dropped, `catalogue_laws` and `form_laws` what holds of
  the catalogue, `allocation_laws` of the numbers of sequences, and `data_laws` of the bytes that
  keys stand for. `soundness` shows that each step keeps the datastore in order.
- `value`, `types`, `data_key`, `ordered`, `btree_index`, `sequence`, `table`, `state` and `iter`
  are what the datastore is made of.
- `parse` reads values from text; `sql` decides what is shown of the answer to a query.

Three calls are trusted: the Keccak-256 digest of `sha3`, the table text of `tabled`, and
`String::from_utf8`.

`app/` puts a lock around the datastore, reads floats, and holds the command that sends a query.
