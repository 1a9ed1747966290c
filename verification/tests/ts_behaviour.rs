//! What the time-series database promises, on concrete values.

use flashdb::{FdbError, RamStorage, Tsdb, Tsl, TslStatus};

/// Two sectors of 128 bytes: four logs of 8 bytes fit a sector.
const SEC: u32 = 128;
const MAX: u32 = SEC * 2;

type Clock = Box<dyn FnMut() -> i32>;

fn no_clock() -> Clock {
    Box::new(|| 0)
}

fn open(storage: RamStorage) -> Tsdb<RamStorage, Clock> {
    Tsdb::new(storage, SEC, MAX, no_clock(), 16).unwrap()
}

fn filled(n: i32) -> Tsdb<RamStorage, Clock> {
    let mut db = open(RamStorage::new(MAX));
    for t in 1..=n {
        db.append_with_ts(&[t as u8; 8], 10 * t).unwrap();
    }
    db
}

fn times(tsls: &[Tsl]) -> Vec<i32> {
    tsls.iter().map(|t| t.time()).collect()
}

#[test]
fn appending_adds_the_log_at_the_end() {
    let mut db = filled(3);
    let tsls = db.collect();
    assert_eq!(times(&tsls), vec![10, 20, 30]);
    assert_eq!(db.last_time(), 30);
    for (i, t) in tsls.iter().enumerate() {
        assert_eq!(t.status(), TslStatus::Write);
        assert_eq!(t.log_len(), 8);
        assert_eq!(t.index_addr(), 32 + 16 * i as u32);
        assert_eq!(t.log_addr(), SEC - 8 * (i as u32 + 1));
        let mut buf = [0u8; 8];
        assert_eq!(db.read_log(t, &mut buf), 8);
        assert_eq!(buf, [i as u8 + 1; 8]);
        let mut part = [0u8; 3];
        assert_eq!(db.read_log(t, &mut part), 3);
        assert_eq!(part, [i as u8 + 1; 3]);
    }
}

#[test]
fn times_must_grow_and_blobs_must_fit() {
    let mut db = filled(2);
    assert_eq!(db.append_with_ts(b"x", 20), Err(FdbError::WriteErr));
    assert_eq!(db.append_with_ts(b"x", -5), Err(FdbError::WriteErr));
    assert_eq!(db.append_with_ts(&[0; 17], 30), Err(FdbError::WriteErr));
    assert_eq!(times(&db.collect()), vec![10, 20]);
    assert_eq!(db.append_with_ts(&[0; 16], 30), Ok(()));
    assert_eq!(times(&db.collect()), vec![10, 20, 30]);
}

#[test]
fn an_empty_blob_is_a_log() {
    let mut db = open(RamStorage::new(MAX));
    db.append_with_ts(b"", 1).unwrap();
    assert_eq!(db.collect().len(), 1);
    assert_eq!(db.collect()[0].log_len(), 0);
}

#[test]
fn the_clock_gives_the_time() {
    let mut t = 100;
    let clock: Clock = Box::new(move || {
        t += 7;
        t
    });
    let mut db = Tsdb::new(RamStorage::new(MAX), SEC, MAX, clock, 16).unwrap();
    db.append(b"a").unwrap();
    db.append(b"b").unwrap();
    assert_eq!(times(&db.collect()), vec![107, 114]);
}

#[test]
fn rollover_drops_the_oldest_sector() {
    let mut db = filled(8);
    assert_eq!(times(&db.collect()), vec![10, 20, 30, 40, 50, 60, 70, 80]);
    assert_eq!(db.oldest_addr(), 0);
    db.append_with_ts(&[9; 8], 90).unwrap();
    assert_eq!(times(&db.collect()), vec![50, 60, 70, 80, 90]);
    assert_eq!(db.oldest_addr(), SEC);
    let mut db = open(db.into_storage());
    assert_eq!(times(&db.collect()), vec![50, 60, 70, 80, 90]);
    assert_eq!(db.last_time(), 90);
}

#[test]
fn without_rollover_a_full_database_refuses() {
    let mut db = filled(8);
    assert!(db.rollover());
    db.set_rollover(false);
    assert!(!db.rollover());
    assert_eq!(db.append_with_ts(&[9; 8], 90), Err(FdbError::SavedFull));
    assert_eq!(db.append_with_ts(&[9; 8], 100), Err(FdbError::SavedFull));
    assert_eq!(times(&db.collect()), vec![10, 20, 30, 40, 50, 60, 70, 80]);
    // No sector is left to go on in, but the logs are still there.
    let mut db = Tsdb::new(db.into_storage(), SEC, MAX, no_clock(), 16).unwrap();
    assert_eq!(times(&db.collect()), vec![10, 20, 30, 40, 50, 60, 70, 80]);
    let mut back = Vec::new();
    db.iter_reverse(|tsl, _| {
        back.push(tsl.time());
        false
    });
    assert_eq!(back, vec![80, 70, 60, 50, 40, 30, 20, 10]);
    assert_eq!((db.oldest_addr(), db.last_time()), (0, 80));
    assert_eq!(db.append_with_ts(&[9; 8], 110), Err(FdbError::SavedFull));
    db.clean();
    assert_eq!(db.append_with_ts(&[9; 8], 120), Ok(()));
    assert_eq!(times(&db.collect()), vec![120]);
}

#[test]
fn reverse_is_the_reverse() {
    // Logs of 7 bytes leave four bytes of a full sector free.
    let mut db = open(RamStorage::new(MAX));
    for t in 1..=6 {
        db.append_with_ts(&[t as u8; 7], t).unwrap();
    }
    let mut up: Vec<(i32, Vec<u8>)> = Vec::new();
    db.iter(|t, data| {
        up.push((t.time(), data.to_vec()));
        false
    });
    let mut down: Vec<(i32, Vec<u8>)> = Vec::new();
    db.iter_reverse(|t, data| {
        down.push((t.time(), data.to_vec()));
        false
    });
    assert_eq!(up.len(), 6);
    assert_eq!(up[4], (5, vec![5u8; 7]));
    down.reverse();
    assert_eq!(up, down);
}

#[test]
fn iteration_stops_where_the_callback_says_so() {
    let mut db = filled(6);
    let mut seen = Vec::new();
    db.iter(|t, _| {
        seen.push(t.time());
        t.time() == 30
    });
    assert_eq!(seen, vec![10, 20, 30]);
    let mut seen = Vec::new();
    db.iter_by_time(20, 60, |t, data| {
        assert_eq!(data.len(), 8);
        seen.push(t.time());
        t.time() >= 50
    });
    assert_eq!(seen, vec![20, 30, 40, 50]);
}

#[test]
fn a_query_gives_the_range() {
    let mut db = open(RamStorage::new(MAX));
    for t in 1..=6 {
        db.append_with_ts(&[t as u8; 7], 10 * t).unwrap();
    }
    assert_eq!(times(&db.collect_by_time(20, 50)), vec![20, 30, 40, 50]);
    assert_eq!(times(&db.collect_by_time(15, 45)), vec![20, 30, 40]);
    assert_eq!(times(&db.collect_by_time(45, 100)), vec![50, 60]);
    assert_eq!(times(&db.collect_by_time(-5, 10)), vec![10]);
    assert_eq!(times(&db.collect_by_time(61, 100)), Vec::<i32>::new());
    assert_eq!(times(&db.collect_by_time(31, 39)), Vec::<i32>::new());
    // Downwards where the first bound is the later one.
    assert_eq!(times(&db.collect_by_time(50, 20)), vec![50, 40, 30, 20]);
    assert_eq!(times(&db.collect_by_time(45, 15)), vec![40, 30, 20]);
    assert_eq!(times(&db.collect_by_time(100, 45)), vec![60, 50]);
    assert_eq!(db.query_count(20, 50, TslStatus::Write), 4);
    assert_eq!(db.query_count(50, 20, TslStatus::Write), 4);
    assert_eq!(db.query_count(20, 50, TslStatus::Deleted), 0);
}

#[test]
fn a_status_is_set_on_one_log() {
    let mut db = filled(6);
    let tsls = db.collect();
    assert_eq!(db.set_status(&tsls[2], TslStatus::UserStatus1), Ok(()));
    assert_eq!(db.set_status(&tsls[4], TslStatus::Deleted), Ok(()));
    let after = db.collect();
    assert_eq!(times(&after), times(&tsls));
    let statuses: Vec<TslStatus> = after.iter().map(|t| t.status()).collect();
    assert_eq!(
        statuses,
        vec![
            TslStatus::Write,
            TslStatus::Write,
            TslStatus::UserStatus1,
            TslStatus::Write,
            TslStatus::Deleted,
            TslStatus::Write
        ]
    );
    assert_eq!(db.query_count(0, 100, TslStatus::Write), 4);
    assert_eq!(db.query_count(0, 100, TslStatus::UserStatus1), 1);
    assert_eq!(db.query_count(0, 100, TslStatus::Deleted), 1);
    let mut buf = [0u8; 8];
    assert_eq!(db.read_log(&after[2], &mut buf), 8);
    assert_eq!(buf, [3u8; 8]);
}

#[test]
fn cleaning_leaves_nothing() {
    let mut db = filled(6);
    db.clean();
    assert_eq!(db.collect().len(), 0);
    assert_eq!(db.last_time(), 0);
    assert_eq!(db.oldest_addr(), 0);
    db.append_with_ts(b"new", 5).unwrap();
    assert_eq!(times(&db.collect()), vec![5]);
}

#[test]
fn reopening_keeps_the_logs() {
    let mut db = filled(6);
    let before: Vec<(i32, u32, u32)> =
        db.collect().iter().map(|t| (t.time(), t.index_addr(), t.log_addr())).collect();
    let bytes = db.storage().as_bytes().to_vec();
    let mut db = open(db.into_storage());
    assert_eq!(db.storage().as_bytes(), &bytes[..]);
    let after: Vec<(i32, u32, u32)> =
        db.collect().iter().map(|t| (t.time(), t.index_addr(), t.log_addr())).collect();
    assert_eq!(before, after);
    assert_eq!(db.last_time(), 60);
    assert_eq!(db.append_with_ts(b"x", 60), Err(FdbError::WriteErr));
    assert_eq!(db.append_with_ts(b"x", 61), Ok(()));
}

#[test]
fn a_bad_header_formats_the_database() {
    let mut bytes = filled(6).into_storage().into_bytes();
    bytes[1] ^= 1;
    let r = Tsdb::with_options(
        RamStorage::from_bytes(bytes.clone()),
        SEC,
        MAX,
        no_clock(),
        16,
        true,
    );
    assert!(matches!(r, Err(FdbError::ReadErr)));
    let mut db = open(RamStorage::from_bytes(bytes));
    assert_eq!(db.collect().len(), 0);
    db.append_with_ts(b"x", 1).unwrap();
    assert_eq!(db.collect().len(), 1);
}

#[test]
fn the_number_of_blobs_is_known() {
    // (4096 - 32) / (16 + 128) = 28 in each of four sectors.
    let db = Tsdb::new(RamStorage::new(16384), 4096, 16384, no_clock(), 128).unwrap();
    assert_eq!(db.max_blob_count(), 112);
    assert_eq!(open(RamStorage::new(MAX)).max_blob_count(), 6);
}

#[test]
fn bad_sizes_are_refused() {
    for (sec, max, len) in [(0, MAX, 16), (100, 200, 16), (SEC, SEC, 16), (SEC, MAX, 128)] {
        let r = Tsdb::new(RamStorage::new(MAX), sec, max, no_clock(), len);
        assert!(matches!(r, Err(FdbError::InitFailed)));
    }
}

#[test]
fn going_back_finds_the_logs_of_full_sectors() {
    let mut db = Tsdb::new(RamStorage::new(128), 64, 128, no_clock(), 16).unwrap();
    assert_eq!(db.append_with_ts(&[0u8; 16], 1), Ok(()));
    assert_eq!(db.append_with_ts(&[0u8; 16], 2), Ok(()));
    assert_eq!(times(&db.collect_by_time(2, 1)), vec![2, 1]);
    assert_eq!(times(&db.collect_by_time(3, 2)), vec![2]);
    assert_eq!(times(&db.collect_by_time(1, 0)), vec![1]);
    assert_eq!(db.query_count(2, 1, TslStatus::Write), 2);
}
