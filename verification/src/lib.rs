//! FlashDB: an ultra-lightweight embedded database for flash and file storage.
//!
//! The crate provides two databases that share a common flash abstraction:
//!
//! * [`Kvdb`]: a log-structured key/value store with wear levelling, power-loss safe
//!   updates, CRC32 integrity checks and garbage collection.
//! * [`Tsdb`]: an append-only time-series database with optional ring-buffer rollover
//!   and fast time-range queries.
//!
//! Both talk to storage through the [`Storage`] trait; [`RamStorage`] keeps it in
//! memory.
//!
//! Each operation is specified by a function on the medium and the state of the
//! database (`kv_model`, `ts_model`).
pub mod calls;
pub mod codec;
pub mod crc32;
pub mod db;
pub mod def;
pub mod error;
pub mod flash;
pub mod flushing;
pub mod format;
pub mod kv_change;
pub mod kv_cut;
pub mod kv_damage;
pub mod kv_dead;
pub mod kv_gc;
pub mod kv_history;
pub mod kv_image;
pub mod kv_iter;
pub mod kv_laws;
pub mod kv_lookup;
pub mod kv_model;
pub mod kv_open;
pub mod kv_power;
pub mod kv_read;
pub mod kv_recover;
pub mod kv_resume;
pub mod kv_torn;
pub mod kv_wear;
pub mod kvdb;
pub mod ring;
pub mod status;
pub mod storage;
pub mod text;
pub mod ts_change;
pub mod ts_history;
pub mod ts_image;
pub mod ts_laws;
pub mod ts_model;
pub mod ts_open;
pub mod ts_query;
pub mod tsdb;

pub use crate::crc32::calc_crc32;
pub use crate::db::DefaultKv;
pub use crate::def::{TslStatus, KV_NAME_MAX};
pub use crate::error::{FdbError, Result};
pub use crate::kvdb::{Kv, KvIterator, Kvdb};
pub use crate::storage::{RamStorage, Storage};
pub use crate::tsdb::{Tsdb, Tsl};
