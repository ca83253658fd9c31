# moor

A terminal session holder's logic, verified with Verus: the wire protocol
between viewers, controllers, semantic producers and the holder; the holder's
policy machine (leases, input, output replay, queries, semantic sources);
the terminal scanner; the commit store, the event log and the storage lanes;
what the holder does with each effect of its policy machine; the command
line; and the client's decisions.

Layout:

- `src/` — the verified library. `lib.rs` lists the modules; each states its
  contracts over `Seq`, `Map` and spec functions. Calls into `base64`,
  `crc32c`, `sha2` and `std::str::from_utf8` go through small wrappers whose
  contracts say what those functions return.
- `tests/` — tests of the library on concrete values.
- `app/` — the `moor` command: argument collection, reading stores from disk,
  and the JSON validation of stored records, which depends on `serde_json`.
