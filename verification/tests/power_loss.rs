//! Databases whose power goes away, once or many times.

use std::cell::RefCell;
use std::collections::BTreeMap;
use std::rc::Rc;

use flashdb::{FdbError, Kvdb, RamStorage, Result, Storage};

const SEC: u32 = 4096;

/// A storage that outlives its database and fails once its budget of writes and erases is
/// spent.
#[derive(Clone)]
struct Failing {
    ram: Rc<RefCell<RamStorage>>,
    budget: Rc<RefCell<u32>>,
}

impl Failing {
    fn on(bytes: Vec<u8>) -> Self {
        Failing {
            ram: Rc::new(RefCell::new(RamStorage::from_bytes(bytes))),
            budget: Rc::new(RefCell::new(u32::MAX)),
        }
    }

    fn allow(&self, n: u32) {
        *self.budget.borrow_mut() = n;
    }

    fn spend(&self) -> bool {
        let mut left = self.budget.borrow_mut();
        if *left == 0 {
            return false;
        }
        *left -= 1;
        true
    }

    fn open(&self) -> Kvdb<Failing> {
        self.allow(u32::MAX);
        let max = self.ram.borrow().as_bytes().len() as u32;
        Kvdb::new(self.clone(), SEC, max, None).unwrap()
    }
}

impl Storage for Failing {
    fn read(&mut self, addr: u32, buf: &mut [u8]) -> Result<()> {
        self.ram.borrow_mut().read(addr, buf)
    }
    fn write(&mut self, addr: u32, buf: &[u8], sync: bool) -> Result<()> {
        if !self.spend() {
            return Err(FdbError::WriteErr);
        }
        self.ram.borrow_mut().write(addr, buf, sync)
    }
    fn erase(&mut self, addr: u32, size: u32) -> Result<()> {
        if !self.spend() {
            return Err(FdbError::EraseErr);
        }
        self.ram.borrow_mut().erase(addr, size)
    }
}

fn open(sectors: u32) -> Kvdb<RamStorage> {
    Kvdb::new(RamStorage::new(sectors * SEC), SEC, sectors * SEC, None).unwrap()
}

/// The bytes of a whole record with this name and value.
fn record(name: &[u8], value: &[u8]) -> Vec<u8> {
    let mut db = open(4);
    db.set(name, value).unwrap();
    let at = db.get_obj(name).unwrap().addr() as usize;
    db.into_storage().into_bytes()[at..at + 24 + name.len() + value.len()].to_vec()
}

#[test]
fn a_value_that_ends_like_erased_bytes_is_kept() {
    let base = {
        let mut db = open(4);
        db.set(b"data", &[1, 2, 0xFF]).unwrap();
        db.set(b"other", &[3, 0xFF]).unwrap();
        db.into_storage().into_bytes()
    };
    for n in 0..12u32 {
        let storage = Failing::on(base.clone());
        let mut db = storage.open();
        storage.allow(n);
        let _ = db.set(b"data", &[4, 0xFF]);
        let mut db = storage.open();
        let data = db.get_vec(b"data").unwrap();
        assert!(data == [1, 2, 0xFF] || data == [4, 0xFF]);
        for round in 0..4u8 {
            assert_eq!(db.set(b"after", &[round, 0xFF]), Ok(()));
            assert_eq!(db.get_vec(b"after"), Some(vec![round, 0xFF]));
            assert_eq!(db.get_vec(b"data").as_ref(), Some(&data));
            assert_eq!(db.get_vec(b"other"), Some(vec![3, 0xFF]));
        }
        let mut db = storage.open();
        assert_eq!(db.get_vec(b"data"), Some(data));
        assert_eq!(db.get_vec(b"after"), Some(vec![3, 0xFF]));
    }
}

#[test]
fn a_name_may_hold_a_record() {
    let name = record(b"ghost", b"boo");
    for n in 0..12u32 {
        let storage = Failing::on({
            let mut db = open(4);
            db.set(b"keep", b"me").unwrap();
            db.into_storage().into_bytes()
        });
        let mut db = storage.open();
        storage.allow(n);
        let done = db.set(&name, b"value") == Ok(());
        let mut db = storage.open();
        assert_eq!(db.get_vec(&name).is_some(), done);
        assert!(db.get_vec(b"ghost").is_none());
        assert_eq!(db.set(b"after", b"works"), Ok(()));
        assert!(db.get_vec(b"ghost").is_none());
        assert_eq!(db.get_vec(b"keep").as_deref(), Some(&b"me"[..]));
    }
}

#[test]
fn a_value_that_is_moved_may_hold_a_record() {
    let mut value = vec![7u8; 40];
    value.extend_from_slice(&record(b"ghost", b"boo"));
    value.extend_from_slice(&[7u8; 40]);
    let mut db = open(4);
    db.set(b"keep", &value).unwrap();
    // Fill the database until the next value needs garbage to be collected.
    let mut base = Vec::new();
    let mut last = 0;
    for i in 0..1000u32 {
        base = db.storage().as_bytes().to_vec();
        let oldest = db.oldest_addr();
        db.set(b"busy", &i.to_le_bytes()).unwrap();
        if db.oldest_addr() != oldest {
            last = i;
            break;
        }
    }
    assert!(last > 0);
    for n in 0..60u32 {
        let storage = Failing::on(base.clone());
        let mut db = storage.open();
        storage.allow(n);
        let _ = db.set(b"busy", &last.to_le_bytes());
        let mut db = storage.open();
        let busy = db.get_vec(b"busy").unwrap();
        assert!(busy == last.to_le_bytes() || busy == (last - 1).to_le_bytes());
        for round in 0..4u8 {
            assert!(db.get_vec(b"ghost").is_none());
            assert_eq!(db.get_vec(b"keep").as_ref(), Some(&value));
            assert_eq!(db.set(b"after", &[round]), Ok(()));
        }
    }
}

#[test]
fn a_record_comes_back_once_another_sector_is_collected() {
    // Neither sector in use has room for the old value again, and the one that it lies in is
    // not dirty; the other one is.
    let mut db = open(3);
    let old = vec![1u8; 1500];
    db.set(b"data", &old).unwrap();
    db.set(b"fill0", &[2u8; 2250]).unwrap();
    db.set(b"junk", &[3u8; 2000]).unwrap();
    db.set(b"fill1", &[4u8; 1750]).unwrap();
    db.del(b"junk").unwrap();
    let storage = Failing::on(db.into_storage().into_bytes());
    let mut db = storage.open();
    let at = db.get_obj(b"data").unwrap().addr();
    storage.allow(1);
    assert!(db.set(b"data", b"new").is_err());
    let mut db = storage.open();
    assert_eq!(db.get_vec(b"data"), Some(old));
    assert_eq!(db.get_vec(b"fill0"), Some(vec![2u8; 2250]));
    assert_eq!(db.get_vec(b"fill1"), Some(vec![4u8; 1750]));
    assert!(db.get_obj(b"data").unwrap().addr() != at);
    assert_eq!(db.set(b"data", b"new"), Ok(()));
    assert_eq!(db.get_vec(b"data").as_deref(), Some(&b"new"[..]));
}

#[test]
fn a_record_without_room_waits_until_there_is_some() {
    let mut db = open(3);
    let old = vec![1u8; 1500];
    db.set(b"data", &old).unwrap();
    db.set(b"fill0", &[2u8; 2250]).unwrap();
    db.set(b"fill1", &[4u8; 3780]).unwrap();
    let storage = Failing::on(db.into_storage().into_bytes());
    let mut db = storage.open();
    storage.allow(1);
    assert!(db.set(b"data", b"new").is_err());
    // Nothing can be collected, so the old value is out of reach.
    let mut db = storage.open();
    assert!(db.get_vec(b"data").is_none());
    assert_eq!(db.get_vec(b"fill0"), Some(vec![2u8; 2250]));
    assert_eq!(db.get_vec(b"fill1"), Some(vec![4u8; 3780]));
    assert_eq!(db.del(b"fill1"), Ok(()));
    let mut db = storage.open();
    assert_eq!(db.get_vec(b"data"), Some(old));
    assert_eq!(db.get_vec(b"fill0"), Some(vec![2u8; 2250]));
}

#[test]
fn the_power_goes_away_again_and_again() {
    let storage = Failing::on(open(8).into_storage().into_bytes());
    let mut expected: BTreeMap<Vec<u8>, Vec<u8>> = BTreeMap::new();
    let mut seed = 1u32;
    let mut next = |bound: u32| {
        seed = seed.wrapping_mul(1664525).wrapping_add(1013904223);
        (seed >> 8) % bound
    };
    for _ in 0..2000 {
        let mut db = storage.open();
        for (k, v) in &expected {
            assert_eq!(db.get_vec(k).as_ref(), Some(v));
        }
        let key = vec![b'a' + next(6) as u8];
        let mut value = vec![next(256) as u8; next(400) as usize];
        value.push(0xFF);
        storage.allow(next(20));
        if next(5) == 0 {
            let _ = db.del(&key);
            let mut db = storage.open();
            match db.get_vec(&key) {
                Some(v) => assert_eq!(Some(&v), expected.get(&key)),
                None => {
                    expected.remove(&key);
                }
            }
        } else {
            let done = db.set(&key, &value) == Ok(());
            let mut db = storage.open();
            let now = db.get_vec(&key);
            assert!(now.as_ref() == Some(&value) || (!done && now.as_ref() == expected.get(&key)));
            if let Some(v) = now {
                expected.insert(key, v);
            }
        }
    }
}
