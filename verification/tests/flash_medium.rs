//! Both databases on a medium that can only clear bits when it is programmed.

use flashdb::{FdbError, Kvdb, RamStorage, Result, Storage, Tsdb, TslStatus};

/// A storage that refuses to set a bit other than by erasing.
struct Flash {
    ram: RamStorage,
    programs: usize,
    erases: usize,
}

impl Flash {
    fn new(capacity: u32) -> Self {
        Flash { ram: RamStorage::new(capacity), programs: 0, erases: 0 }
    }
}

impl Storage for Flash {
    fn read(&mut self, addr: u32, buf: &mut [u8]) -> Result<()> {
        self.ram.read(addr, buf)
    }
    fn write(&mut self, addr: u32, buf: &[u8], sync: bool) -> Result<()> {
        let mut old = vec![0u8; buf.len()];
        self.ram.read(addr, &mut old)?;
        for (was, to) in old.iter().zip(buf) {
            if was & to != *to {
                return Err(FdbError::WriteErr);
            }
        }
        self.programs += 1;
        self.ram.write(addr, buf, sync)
    }
    fn erase(&mut self, addr: u32, size: u32) -> Result<()> {
        self.erases += 1;
        self.ram.erase(addr, size)
    }
}

#[test]
fn the_key_value_database_only_clears_bits() {
    const SEC: u32 = 4096;
    let mut db = Kvdb::new(Flash::new(4 * SEC), SEC, 4 * SEC, None).unwrap();
    for round in 0..60u8 {
        let name = [b'k', b'0' + round % 5];
        let value = vec![round; 500];
        assert_eq!(db.set(&name, &value), Ok(()));
        assert_eq!(db.get_vec(&name), Some(value));
        if round % 7 == 0 {
            assert_eq!(db.del(&name), Ok(()));
            assert!(db.get_vec(&name).is_none());
        }
    }
    assert!(db.storage().programs > 300);
    // Four sectors were formatted; the rest were erased to collect garbage.
    assert!(db.storage().erases > 4);
}

#[test]
fn the_time_series_database_only_clears_bits() {
    const SEC: u32 = 4096;
    let mut db = Tsdb::new(Flash::new(4 * SEC), SEC, 4 * SEC, || 0, 64).unwrap();
    for t in 1..=500i32 {
        assert_eq!(db.append_with_ts(&[t as u8; 40], t), Ok(()));
    }
    let logs = db.collect();
    assert_eq!(logs.last().unwrap().time(), 500);
    assert!(logs[0].time() > 1);
    for log in &logs {
        assert_eq!(db.set_status(log, TslStatus::UserStatus1), Ok(()));
        assert_eq!(db.set_status(log, TslStatus::Deleted), Ok(()));
    }
    assert_eq!(db.query_count(1, 500, TslStatus::Deleted), logs.len());
    // A status cannot be taken back but by setting bits.
    assert_eq!(db.set_status(&logs[0], TslStatus::Write), Err(FdbError::WriteErr));
    assert!(db.storage().erases > 4);
}
