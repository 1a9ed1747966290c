# flashdb

An ultra-lightweight embedded database for flash and file storage, verified with Verus.

- `Kvdb`: a log-structured key-value database with wear levelling, power-loss safe
  updates, CRC32 integrity checks and garbage collection.
- `Tsdb`: an append-only time-series database with optional ring-buffer rollover,
  time-range queries and a status per log.

Both talk to storage through the `Storage` trait. `RamStorage` keeps it in memory;
`FileStorage`, in `app/`, keeps every sector in a file of its own. The layout on storage
is that of NOR flash and files: every byte can be programmed by itself, programming
clears bits, erasing a sector sets them.

```rust
use flashdb::{Kvdb, RamStorage};

// 4 sectors of 4 KiB each.
let storage = RamStorage::new(4096 * 4);
let mut db = Kvdb::new(storage, 4096, 4096 * 4, None).unwrap();

db.set(b"boot_count", b"42").unwrap();
let mut buf = [0u8; 16];
let n = db.get(b"boot_count", &mut buf).unwrap();
assert_eq!(&buf[..n], b"42");
```

## Layout

- `src/kvdb.rs`, `src/tsdb.rs`: the databases. Each operation is proved to do what a
  function in `kv_model` or `ts_model` says, on any storage that keeps to the model of a
  flash medium (`storage`), also where its power goes away.
- `src/kv_image.rs`, `src/ts_image.rs`: what the bytes of a medium mean, as sectors of
  records and logs.
- `src/kv_laws.rs`, `kv_history.rs`, `kv_gc.rs`, `kv_open.rs`, `kv_iter.rs`, `kv_wear.rs`:
  what holds of the key-value database as a whole. A name reads as it was last set, after
  any history of operations, and reopening it then writes nothing; garbage collection,
  reopening and growing lose nothing; an iterator comes past every live record once;
  programming only ever clears bits, only whole sectors are erased, and collecting goes
  round, so that wear is levelled.
- `src/kv_power.rs`, `kv_cut.rs`: what holds of it where the power goes away, any number of
  times. An update or a deletion leaves the old or the new value and every other value as it
  was, and the database can be written to afterwards. An old record must find room to be
  brought back, and so must the records that resumed garbage collection moves.
  `kv_torn.rs`, `kv_recover.rs`, `kv_resume.rs` and `kv_dead.rs` hold what that rests on.
- `src/ts_laws.rs`, `ts_history.rs`, `ts_query.rs`, `ts_open.rs`: what holds of the
  time-series database as a whole. Appending adds one log, and after any history of appends
  the last logs are there; queries give the logs of their range; reopening keeps the logs;
  setting a status changes one log.
- `src/flushing.rs`: what is flushed before an operation reports success.
- `src/kv_lookup.rs`, `kv_change.rs`, `ts_change.rs`: what reading and writing do to the
  sectors and records of an image.
- `src/status.rs`, `flash.rs`, `codec.rs`, `crc32.rs`, `text.rs`, `ring.rs`, `db.rs`,
  `def.rs`, `error.rs`: what both databases are built from.
- `app/`: storage in files, printing, and samples.
