# link_aggregator

An index of links between records, kept in RocksDB, with its logic proved in Verus.

- `src/` is the index itself. It neither reads nor writes: an operation works on the rows it has
  been told of (`known.rs`), says which rows it lacks, and gives its changes as batches (`db.rs`).
  `model.rs` says what each operation means for the rows of the database; the functions in
  `storage.rs` and below it are proved to do that, and `laws/` proves what follows: that every
  event can be taken in and leaves the database in order, what is read after each kind of event,
  that an account that goes takes all its links along, that pages cover everything, that ids are
  not given out twice, and that rows may be merged in any grouping.
  An operation that counts on a database in order asks for one; the function beside it whose name
  begins with `try_` takes whatever database there is, and says what is wrong with it.
- `app/` opens RocksDB, reads and writes for the index, and holds its two traits.
- `tests/` runs the index over a database in memory.

The byte format is bincode's (variable-width integers, big-endian digits). Encoding and decoding
are bincode's own; `wire.rs` states the format, and the two functions there that call bincode are
all that is taken on trust.
