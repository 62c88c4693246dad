# nebari

A multi-tree transactional key-value database. The library in `src/` holds the
database itself: trees of keys and values, transactions over several trees, the log
of what was committed, and the rules by which files are named and opened. Each of
its functions states in its contract what it does, and Verus proves that it does so.

- `model.rs` says what a tree is, as a mathematical value, and `state.rs`, `query.rs`,
  `update.rs`, `sequences.rs`, `scan.rs` and `reduce.rs` read and change one.
- `tree.rs`, `transaction_tree.rs` and `transaction.rs` hold the trees of a
  transaction.
- `database.rs` says what a database is, and `config.rs`, `roots.rs` and `handle.rs`
  open, read and change one.
- `files.rs` says what is asked of the files of a database, and in which order.
- `pool.rs` and `channel.rs` hand trees out to be written.
- `tree_laws.rs`, `scan_laws.rs` and `database_laws.rs` prove what holds of trees,
  scans and databases as a whole, such as that readers see nothing of a transaction
  until it is committed.

`app/` puts a lock around a database so that threads can share it and runs the threads
that have trees written. How trees and the log are written is left to the file manager
that it is given. The tests are in `tests/`.
