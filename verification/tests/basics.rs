//! Formulas, codes and the in-memory storage.

use flashdb::db::validate_geometry;
use flashdb::def::{align_down, status_table_size};
use flashdb::text::file_name;
use flashdb::flash::{continue_ff_addr, read_status, write_align, write_status};
use flashdb::{calc_crc32, FdbError, RamStorage, Storage, TslStatus};

#[test]
fn crc32_of_known_bytes() {
    assert_eq!(calc_crc32(0, b"123456789"), 0xCBF4_3926);
    assert_eq!(calc_crc32(0, b""), 0);
    assert_eq!(calc_crc32(0, b"a"), 0xE8B7_BE43);
    assert_eq!(calc_crc32(calc_crc32(0, b"1234"), b"56789"), 0xCBF4_3926);
}

#[test]
fn error_codes_and_messages() {
    let all = [
        (FdbError::EraseErr, 1, "flash erase error"),
        (FdbError::ReadErr, 2, "flash read error"),
        (FdbError::WriteErr, 3, "flash write error"),
        (FdbError::PartNotFound, 4, "partition not found"),
        (FdbError::KvNameErr, 5, "KV name error or not found"),
        (FdbError::KvNameExist, 6, "KV name already exists"),
        (FdbError::SavedFull, 7, "database is full"),
        (FdbError::InitFailed, 8, "database initialization failed"),
    ];
    for (e, code, message) in all {
        assert_eq!(e.code(), code);
        assert_eq!(e.message(), message);
    }
}

#[test]
fn geometry() {
    assert_eq!(validate_geometry(4096, 8192), Ok(()));
    assert_eq!(validate_geometry(1, 2), Ok(()));
    assert_eq!(validate_geometry(0, 8192), Err(FdbError::InitFailed));
    assert_eq!(validate_geometry(4096, 0), Err(FdbError::InitFailed));
    assert_eq!(validate_geometry(4097, 8194), Err(FdbError::InitFailed));
    assert_eq!(validate_geometry(4096, 8193), Err(FdbError::InitFailed));
    assert_eq!(validate_geometry(4096, 4096), Err(FdbError::InitFailed));
}

#[test]
fn alignment_and_table_sizes() {
    assert_eq!(align_down(4097, 4096), 4096);
    assert_eq!(align_down(8191, 4096), 4096);
    assert_eq!(align_down(8192, 4096), 8192);
    assert_eq!(status_table_size(6), 1);
    assert_eq!(status_table_size(8), 1);
    assert_eq!(status_table_size(9), 2);
}

#[test]
fn status_of_a_log_by_its_index() {
    for i in 0..6usize {
        assert_eq!(TslStatus::from_index(i).index(), i);
    }
    assert_eq!(TslStatus::from_index(3), TslStatus::UserStatus1);
}

#[test]
fn ram_storage_reads_what_was_written() {
    let mut s = RamStorage::new(64);
    assert_eq!(s.as_bytes(), &[0xFFu8; 64][..]);
    assert_eq!(s.write(60, b"wxyz", true), Ok(()));
    let mut buf = [0u8; 4];
    assert_eq!(s.read(60, &mut buf), Ok(()));
    assert_eq!(&buf, b"wxyz");
    assert_eq!(s.erase(32, 32), Ok(()));
    assert_eq!(s.as_bytes(), &[0xFFu8; 64][..]);
}

#[test]
fn ram_storage_refuses_what_lies_outside() {
    let mut s = RamStorage::new(64);
    let mut buf = [7u8; 5];
    assert_eq!(s.read(60, &mut buf), Err(FdbError::ReadErr));
    assert_eq!(buf, [7u8; 5]);
    assert_eq!(s.write(60, &buf, false), Err(FdbError::WriteErr));
    assert_eq!(s.erase(64, 1), Err(FdbError::EraseErr));
    assert_eq!(s.into_bytes(), vec![0xFFu8; 64]);
}

#[test]
fn statuses_on_a_medium() {
    let mut s = RamStorage::new(16);
    assert_eq!(read_status(&mut s, 3, 6), 0);
    assert_eq!(write_status(&mut s, 3, 6, 0, true), Ok(()));
    assert_eq!(s.as_bytes()[3], 0xFF);
    for (i, byte) in [(1usize, 0x7Fu8), (2, 0x3F), (3, 0x1F), (4, 0x0F), (5, 0x07)] {
        assert_eq!(write_status(&mut s, 3, 6, i, true), Ok(()));
        assert_eq!(s.as_bytes()[3], byte);
        assert_eq!(read_status(&mut s, 3, 6), i);
    }
    assert_eq!(write_status(&mut s, 16, 6, 1, true), Err(FdbError::WriteErr));
    assert_eq!(read_status(&mut s, 16, 6), 0);
}

#[test]
fn the_erased_tail_of_a_medium() {
    let mut s = RamStorage::new(100);
    assert_eq!(continue_ff_addr(&mut s, 0, 100), 0);
    s.write(40, &[0], true).unwrap();
    assert_eq!(continue_ff_addr(&mut s, 0, 100), 41);
    assert_eq!(continue_ff_addr(&mut s, 41, 100), 41);
    s.write(99, &[0], true).unwrap();
    assert_eq!(continue_ff_addr(&mut s, 0, 100), 100);
    assert_eq!(continue_ff_addr(&mut s, 100, 100), 100);
    assert_eq!(write_align(&mut s, 1000, b""), Ok(()));
    assert_eq!(write_align(&mut s, 1000, b"x"), Err(FdbError::WriteErr));
}

#[test]
fn names_of_sector_files() {
    assert_eq!(file_name("env", 0), "env.fdb.0");
    assert_eq!(file_name("database", 10), "database.fdb.10");
    assert_eq!(file_name("databases", 4294967295), "database.fdb.4294967295");
    assert_eq!(file_name("", 7), ".fdb.7");
    assert_eq!(file_name("äöüäöüäöü", 1), "äöüäöüäö.fdb.1");
}
