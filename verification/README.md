# PhoenixDB

An embedded key/value engine, written in Rust and verified with Verus.

`src/` is the library. It works on plain values: bytes in, bytes out. Every
function carries a contract over mathematical models, and Verus proves it.

| module | what it holds |
| --- | --- |
| `page`, `page_cache`, `page_pool`, `pager` | 4 KiB slotted pages, the cache, allocation, overflow chains, journaled flushes |
| `btree` | the B+Tree on those pages, its structural check, and filling a tree anew that has grown too high |
| `txn`, `overlay` | versions, snapshots, conflicts, and merging them over the tree |
| `wal` | the log of committed transactions |
| `audit` | the offline integrity check |
| `database` | transactions, batches, scans and checkpoints over all of these |
| `lsm` | MemTables, SSTables, levels, compaction and the manifest log |
| `collection` | documents: ids, metadata index, filters, full text, search plans, rankings |
| `observability` | counters, histograms, reports and spans |
| `interface` | the formats that cross the C boundary |
| `bytes`, `checksum`, `error`, `json`, `ordered`, `prefix` | what the others share |

Properties that span several functions are public proof functions named
`law_…`; they stand next to what they are about, most of them in
`btree/laws.rs`, `database/laws.rs`, `lsm/reads.rs`, `lsm/layout.rs`,
`lsm/reopen.rs` and `observability/quantiles.rs`.

`app/` is ordinary Rust around the library: files and locks, clocks, floating
point, the C interface, and the offline integrity check. Calls into other crates that
the library itself makes stand behind functions marked
`#[verifier::external_body]`, each with a comment that says what is taken on
trust.

`tests/` runs the library with the real crates linked.
