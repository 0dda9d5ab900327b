# redis_lite

The core of a small Redis-style key/value server, verified with Verus.

- `src/protocol.rs`: RESP frames, the decoder that reads requests (arrays of
  bulk strings) out of a connection buffer, and the encoder for replies.
- `src/command.rs`: the `SET` and `GET` commands and how a request frame
  names one.
- `src/store.rs`: the in-memory store, whose values may carry an expiry read
  against a monotonic clock.
- `src/aof.rs`: the append-only log: the record a write leaves, the replay of
  a log into the store, the state shared by the log's writers, and the
  records a rewrite of the log writes.
- `src/engine.rs`: carrying out a command against the store and the reply
  frame it gives.
- `app/`: the TCP server around the library (sockets, files, tasks, locks).

## Design notes

- The store keeps its entries in a `Vec<(String, Value)>` with no key held
  twice, a type invariant of `Store`, and finds a key by a linear scan. The
  hash maps were tried and none serves:
  - vstd's contract of `std::collections::HashMap` holds only for key types
    that obey its key model, and vstd does not state that `String` does: with a
    `HashMap<String, u64>`, that its length is 1 after one `insert` into an
    empty map is not proved.
  - `vstd::hash_map::HashMapWithView::new` requires that key model, so
    Verus refuses it for `String` keys.
  - `vstd::hash_map::StringHashMap` is specified for `String` keys, but
    offers no way to walk its entries, which the sweep of expired values and
    the snapshot of a log rewrite need.

  The store's view is still a map from keys to values, and every operation
  is stated over that map.
- Clock readings are nanoseconds since the store's clock started (`u128`),
  so an expiry is a plain number that the contracts can compare.
- Replies carry the stored bytes as they are (`Reply::Found`), so a value is
  answered byte for byte whatever it holds.
