# logregator

A store for log records with a log-structured merge tree, a TCP protocol in front of it, and the
tools that measure it. The library under `src/` is written in Verus: what each function does is
stated in its contract and proved. The programs under `app/` do the input and output.

## The store

Records are ordered by source, time, sequence number and key. They go to a write-ahead log and to a
memory table; a full memory table is set aside, written to a table file, and taken up as a table.
Tables are merged when their files have grown. A query merges what it finds in the memory tables
and in the tables whose bloom filters hold its source and key.

| module | what it holds |
|---|---|
| `storage::record`, `storage::sorted` | records, their order, sorted sequences of them |
| `storage::memtable` | the memory table |
| `storage::frames`, `storage::wal` | records behind their lengths, the write-ahead log |
| `storage::index`, `storage::bloom`, `storage::sstable` | table files and what is kept of them in memory |
| `storage::iter`, `storage::merge` | reading tables, merging sorted sources |
| `storage::engine`, `storage::backend` | the store, and the loop around it |
| `storage::compaction`, `storage::compactor` | merging tables |
| `storage::laws`, `storage::whole` | what holds of the store as a whole |
| `codec`, `text`, `buffer`, `style`, `histogram` | numbers, text, byte buffers, colors, histograms |
| `proto`, `server`, `client` | messages, the session of a connection, replies |
| `metrics` | counters, gauges and latencies |
| `bench`, `report`, `compare`, `mem_profile`, `profile`, `xtask` | the tools |

`storage::whole` states the invariant that every operation keeps, that no operation loses a record,
and that a store is the same after it is opened again on its own files and logs. `storage::laws`
states that a query gives exactly the stored records that it asks for.

The bloom filters hash with the keys that `DefaultHasher::new` starts from, so a filter that is read
back finds what was put in before it was written.

## What is not proved

Calls into `bytes`, `hdrhistogram`, `owo-colors`, `serde_json` and the parts of `std` without a specification
stand behind small functions whose contracts are believed; each says so in its comment. Whatever is
computed with floating-point numbers is in `app/`.
