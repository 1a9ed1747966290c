//! Both databases over histories of operations.

use std::collections::BTreeMap;

use flashdb::kvdb::has_bad_header;
use flashdb::tsdb::survey_sectors;
use flashdb::{DefaultKv, FdbError, Kvdb, RamStorage, Result, Storage, Tsdb, TslStatus};

const SEC: u32 = 4096;

/// A storage that remembers what was written and erased.
struct Watched {
    ram: RamStorage,
    writes: Vec<(usize, bool)>,
    erases: Vec<(u32, u32)>,
}

impl Watched {
    fn new(capacity: u32) -> Self {
        Watched { ram: RamStorage::new(capacity), writes: vec![], erases: vec![] }
    }
}

impl Storage for Watched {
    fn read(&mut self, addr: u32, buf: &mut [u8]) -> Result<()> {
        self.ram.read(addr, buf)
    }
    fn write(&mut self, addr: u32, buf: &[u8], sync: bool) -> Result<()> {
        self.writes.push((buf.len(), sync));
        self.ram.write(addr, buf, sync)
    }
    fn erase(&mut self, addr: u32, size: u32) -> Result<()> {
        self.erases.push((addr, size));
        self.ram.erase(addr, size)
    }
}

#[test]
fn every_erase_is_one_whole_sector() {
    let mut kv = Kvdb::new(Watched::new(4 * SEC), SEC, 4 * SEC, None).unwrap();
    for i in 0..100u8 {
        assert_eq!(kv.set(&[b'a' + i % 3], &[i; 700]), Ok(()));
    }
    assert!(kv.storage().erases.len() > 8);
    assert!(kv.storage().erases.iter().all(|&(a, n)| a % SEC == 0 && a < 4 * SEC && n == SEC));

    let mut ts = Tsdb::new(Watched::new(4 * SEC), SEC, 4 * SEC, || 0, 128).unwrap();
    for t in 1..=1000i32 {
        assert_eq!(ts.append_with_ts(&[t as u8; 100], t), Ok(()));
    }
    assert!(ts.storage().erases.len() > 8);
    assert!(ts.storage().erases.iter().all(|&(a, n)| a % SEC == 0 && a < 4 * SEC && n == SEC));
}

#[test]
fn what_counts_is_flushed() {
    let mut kv = Kvdb::new(Watched::new(4 * SEC), SEC, 4 * SEC, None).unwrap();
    // Sector headers alone.
    assert_eq!(kv.storage().writes, vec![(16, true); 8]);
    let before = kv.storage().writes.len();
    assert_eq!(kv.set(b"name", b"value"), Ok(()));
    // The sector's status; the record's status, header, name and value; its last status.
    assert_eq!(
        kv.storage().writes[before..],
        [(1, true), (1, false), (20, false), (4, false), (5, false), (1, true)]
    );
    let before = kv.storage().writes.len();
    assert_eq!(kv.del(b"name"), Ok(()));
    // The record's status, and that of its sector.
    assert_eq!(kv.storage().writes[before..], [(1, true), (1, true)]);

    let mut ts = Tsdb::new(Watched::new(4 * SEC), SEC, 4 * SEC, || 0, 128).unwrap();
    let before = ts.storage().writes.len();
    assert_eq!(ts.append_with_ts(b"blob", 7), Ok(()));
    // The sector's status and first time; the log's status, record and data; its last status.
    assert_eq!(
        ts.storage().writes[before..],
        [(1, true), (4, true), (1, false), (12, false), (4, false), (1, true)]
    );
    let before = ts.storage().writes.len();
    let log = ts.collect()[0];
    assert_eq!(ts.set_status(&log, TslStatus::Deleted), Ok(()));
    assert_eq!(ts.storage().writes[before..], [(1, true)]);
}

#[test]
fn records_that_are_moved_are_flushed() {
    let mut kv = Kvdb::new(Watched::new(4 * SEC), SEC, 4 * SEC, None).unwrap();
    assert_eq!(kv.set(b"kept", &[7; 40]), Ok(()));
    let erases = kv.storage().erases.len();
    let mut i = 0u8;
    while kv.storage().erases.len() == erases {
        assert_eq!(kv.set(b"often", &[i; 300]), Ok(()));
        i += 1;
    }
    assert_eq!(kv.get_vec(b"kept"), Some(vec![7; 40]));
    // The status of the copy, the rest of it in pieces, and its last status.
    let moved = [(1, false), (32, true), (32, true), (1, true)];
    assert!(kv.storage().writes.windows(4).any(|w| w == moved));
}

#[test]
fn every_name_reads_as_it_was_last_set() {
    let mut db = Kvdb::new(RamStorage::new(4 * SEC), SEC, 4 * SEC, None).unwrap();
    let mut model: BTreeMap<Vec<u8>, Vec<u8>> = BTreeMap::new();
    let mut x = 1u32;
    for _ in 0..400 {
        x = x.wrapping_mul(1664525).wrapping_add(1013904223);
        let name = vec![b'n', b'0' + (x >> 24) as u8 % 8];
        if (x >> 16) % 5 == 0 {
            let r = db.del(&name);
            let known = model.remove(&name).is_some();
            assert_eq!(r, if known { Ok(()) } else { Err(FdbError::KvNameErr) });
        } else {
            let value = vec![(x >> 8) as u8; (x >> 12) as usize % 600];
            assert_eq!(db.set(&name, &value), Ok(()));
            model.insert(name, value);
        }
        for i in 0..8u8 {
            let name = vec![b'n', b'0' + i];
            assert_eq!(db.get_vec(&name).as_ref(), model.get(&name));
        }
        assert_eq!(db.check(), Ok(()));
    }
    // To the end, an iterator counts them all.
    let mut it = db.iterator();
    let mut steps = 0u32;
    while db.iterate(&mut it) {
        steps += 1;
    }
    assert_eq!(steps as usize, model.len());
    assert_eq!(it.count(), steps);
    let values: usize = model.values().map(|v| v.len()).sum();
    assert_eq!(it.value_bytes(), values);
    assert_eq!(it.obj_bytes(), values + model.len() * (24 + 2));
}

#[test]
fn collecting_makes_room() {
    let mut db = Kvdb::new(RamStorage::new(4 * SEC), SEC, 4 * SEC, None).unwrap();
    // Sector by sector, records that are replaced at once.
    for i in 0..60u8 {
        assert_eq!(db.set(b"only", &[i; 1000]), Ok(()));
        assert_eq!(db.get_vec(b"only"), Some(vec![i; 1000]));
    }
    // Nothing can be collected where every record is live.
    let mut db = Kvdb::new(RamStorage::new(4 * SEC), SEC, 4 * SEC, None).unwrap();
    for i in 0..9u8 {
        assert_eq!(db.set(&[b'a' + i], &[i; 1000]), Ok(()));
    }
    assert_eq!(db.set(b"z", &[0; 1000]), Err(FdbError::SavedFull));
    assert_eq!(db.del(b"a"), Ok(()));
    assert_eq!(db.set(b"z", &[0; 1000]), Ok(()));
}

#[test]
fn the_last_logs_are_kept() {
    let mut db = Tsdb::new(RamStorage::new(4 * SEC), SEC, 4 * SEC, || 0, 64).unwrap();
    let mut taken: Vec<(i32, Vec<u8>)> = vec![];
    let mut time = 0i32;
    for i in 0..900usize {
        // Now and then a log that comes too late, or is too long.
        let late = i % 10 == 9;
        let len = if i % 13 == 12 { 65 } else { i % 65 };
        let at = if late { time } else { time + 1 };
        let blob = vec![i as u8; len];
        let r = db.append_with_ts(&blob, at);
        if late || len > 64 {
            assert_eq!(r, Err(FdbError::WriteErr));
        } else {
            assert_eq!(r, Ok(()));
            time = at;
            taken.push((at, blob));
        }
        let logs = db.collect();
        assert!(logs.len() <= taken.len());
        let last = &taken[taken.len() - logs.len()..];
        for (log, (t, blob)) in logs.iter().zip(last) {
            assert_eq!(log.time(), *t);
            let mut buf = vec![0u8; 65];
            let n = db.read_log(log, &mut buf);
            assert_eq!(&buf[..n], &blob[..]);
        }
        if logs.len() < taken.len() {
            assert!(taken.len() > db.max_blob_count());
        }
    }
    assert!(db.collect().len() < taken.len());
}

#[test]
fn the_greatest_count_is_reached() {
    let mut db = Tsdb::new(RamStorage::new(4 * SEC), SEC, 4 * SEC, || 0, 100).unwrap();
    let n = db.max_blob_count();
    assert_eq!(n, 4 * ((4096 - 32) / 116));
    for t in 1..=n as i32 {
        assert_eq!(db.append_with_ts(&[1; 100], t), Ok(()));
        assert_eq!(db.collect().len(), t as usize);
    }
    assert_eq!(db.append_with_ts(&[1; 100], n as i32 + 1), Ok(()));
    assert_eq!(db.collect().len(), n - n / 4 + 1);
}

#[test]
fn looking_at_headers_changes_nothing() {
    let kv = Kvdb::new(RamStorage::new(4 * SEC), SEC, 4 * SEC, None).unwrap();
    let mut ram = kv.into_storage();
    assert!(!has_bad_header(&mut ram, SEC, 4 * SEC, 0));
    ram.write(2 * SEC + 4, &[0], true).unwrap();
    let bytes = ram.as_bytes().to_vec();
    for from in 0..4 {
        assert!(has_bad_header(&mut ram, SEC, 4 * SEC, from * SEC));
    }
    assert_eq!(ram.as_bytes(), bytes);

    let ts = Tsdb::new(RamStorage::new(4 * SEC), SEC, 4 * SEC, || 0, 64).unwrap();
    let mut ram = ts.into_storage();
    let (_, empty, last, failed) = survey_sectors(&mut ram, SEC, 4 * SEC, 64);
    assert_eq!((empty, last, failed), (4, 3 * SEC, false));
    ram.write(2 * SEC + 1, &[0], true).unwrap();
    let bytes = ram.as_bytes().to_vec();
    let (_, empty, last, failed) = survey_sectors(&mut ram, SEC, 4 * SEC, 64);
    assert_eq!((empty, last, failed), (2, SEC, true));
    assert_eq!(ram.as_bytes(), bytes);
}

#[test]
fn reopening_after_a_history_writes_nothing() {
    let defaults = [DefaultKv::new(b"boot", b"0"), DefaultKv::new(b"host", b"flash")];
    let mut db = Kvdb::new(Watched::new(4 * SEC), SEC, 4 * SEC, Some(&defaults)).unwrap();
    for i in 0..200u8 {
        assert_eq!(db.set(&[b'a' + i % 5], &[i; 300]), Ok(()));
        if i % 7 == 0 {
            assert_eq!(db.del(&[b'a' + i % 5]), Ok(()));
        }
        if i == 100 {
            assert_eq!(db.set_default(), Ok(()));
        }
    }
    assert_eq!(db.del(b"boot"), Ok(()));
    let names: Vec<Vec<u8>> =
        (0..5u8).map(|i| vec![b'a' + i]).chain([b"boot".to_vec(), b"host".to_vec()]).collect();
    let before: Vec<Option<Vec<u8>>> = names.iter().map(|k| db.get_vec(k)).collect();
    let storage = db.into_storage();
    let (writes, erases) = (storage.writes.len(), storage.erases.len());
    let mut db = Kvdb::new(storage, SEC, 4 * SEC, Some(&defaults)).unwrap();
    assert_eq!((db.storage().writes.len(), db.storage().erases.len()), (writes, erases));
    let after: Vec<Option<Vec<u8>>> = names.iter().map(|k| db.get_vec(k)).collect();
    assert_eq!(after, before);
    assert!(db.get_vec(b"boot").is_none());
    assert_eq!(db.get_vec(b"host").as_deref(), Some(&b"flash"[..]));
}

#[test]
fn wear_is_levelled() {
    let mut db = Kvdb::new(Watched::new(4 * SEC), SEC, 4 * SEC, None).unwrap();
    let formatted = db.storage().erases.len();
    for i in 0..3000u32 {
        assert_eq!(db.set(b"counter", &i.to_le_bytes()), Ok(()));
    }
    let order: Vec<u32> = db.storage().erases[formatted..].iter().map(|&(a, _)| a / SEC).collect();
    assert!(order.len() > 20);
    // One sector after another, round and round.
    assert!(order.windows(2).all(|w| w[1] == (w[0] + 1) % 4));
}
