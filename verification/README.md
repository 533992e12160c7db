# tquic

Parts of a QUIC stack, written in Rust and proved with Verus.

- `src/h3/qpack/`: the QPACK dynamic table (RFC 9204). `dynamic_table.rs` holds
  the table and its mathematical state, `table_laws.rs` what holds across its
  operations: indices keep their meaning, eviction takes no more than it must, a
  search finds what was inserted.
- `src/multipath_scheduler/`: two packet schedulers. The weighted scheduler
  spreads packets in proportion to estimated bandwidth: exactly over a whole
  round, and up to a few packets over any run (`weighted_laws.rs`, on top of
  `spread_laws.rs`). BLEST selects the path on which data completes first.
- `src/tools/`: addresses, raw socket addresses, application protocols, the table
  of UDP sockets and the sending of packet batches.
- `app/`: system calls, command line types and floating-point arithmetic around
  the library. It is not verified.
- `tests/`: tests of the compiled library.

Durations are nanoseconds, IP addresses are the numbers that their bytes spell,
and the BLEST parameter lambda travels through the library as the bits of a
floating-point number.

The proofs rest on the contracts of the wrappers in `src/tools/socket_table.rs`,
which call `slab::Slab` and `rustc_hash::FxHashMap`.
