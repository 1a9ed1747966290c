//! What the key-value database promises, on concrete values.

use std::cell::RefCell;
use std::rc::Rc;

use flashdb::{DefaultKv, FdbError, Kvdb, RamStorage, Result, Storage, KV_NAME_MAX};

const SEC: u32 = 4096;
const MAX: u32 = SEC * 4;

fn open() -> Kvdb<RamStorage> {
    Kvdb::new(RamStorage::new(MAX), SEC, MAX, None).unwrap()
}

fn reopen(db: Kvdb<RamStorage>) -> Kvdb<RamStorage> {
    Kvdb::new(db.into_storage(), SEC, MAX, None).unwrap()
}

/// A storage whose bytes can be changed behind the back of the database, and which fails
/// once its budget of writes and erases is spent.
#[derive(Clone)]
struct SharedStorage {
    ram: Rc<RefCell<RamStorage>>,
    budget: Rc<RefCell<u32>>,
}

impl SharedStorage {
    fn new(capacity: u32) -> Self {
        SharedStorage {
            ram: Rc::new(RefCell::new(RamStorage::new(capacity))),
            budget: Rc::new(RefCell::new(u32::MAX)),
        }
    }

    fn spend(&self) -> bool {
        let mut left = self.budget.borrow_mut();
        if *left == 0 {
            return false;
        }
        *left -= 1;
        true
    }
}

impl Storage for SharedStorage {
    fn read(&mut self, addr: u32, buf: &mut [u8]) -> Result<()> {
        self.ram.borrow_mut().read(addr, buf)
    }
    fn write(&mut self, addr: u32, buf: &[u8], sync: bool) -> Result<()> {
        if !self.spend() {
            return Err(FdbError::WriteErr);
        }
        self.ram.borrow_mut().write(addr, buf, sync)
    }
    fn erase(&mut self, addr: u32, size: u32) -> Result<()> {
        if !self.spend() {
            return Err(FdbError::EraseErr);
        }
        self.ram.borrow_mut().erase(addr, size)
    }
}

#[test]
fn set_replaces_one_name_and_keeps_the_others() {
    let mut db = open();
    db.set(b"a", b"1").unwrap();
    db.set(b"b", b"2").unwrap();
    db.set(b"a", b"33").unwrap();
    assert_eq!(db.get_vec(b"a").as_deref(), Some(&b"33"[..]));
    assert_eq!(db.get_vec(b"b").as_deref(), Some(&b"2"[..]));
    assert!(db.get_vec(b"c").is_none());
    db.set(b"c", b"").unwrap();
    assert_eq!(db.get_vec(b"c").as_deref(), Some(&b""[..]));
}

#[test]
fn delete_removes_one_name() {
    let mut db = open();
    db.set(b"a", b"1").unwrap();
    db.set(b"b", b"2").unwrap();
    assert_eq!(db.del(b"a"), Ok(()));
    assert!(db.get_vec(b"a").is_none());
    assert!(db.get_obj(b"a").is_none());
    assert_eq!(db.get_vec(b"b").as_deref(), Some(&b"2"[..]));
    assert_eq!(db.del(b"a"), Err(FdbError::KvNameErr));
    assert_eq!(db.del(b"nothing"), Err(FdbError::KvNameErr));
}

#[test]
fn names_are_at_most_so_long() {
    let mut db = open();
    let long = [b'n'; KV_NAME_MAX + 1];
    assert_eq!(db.set(&long, b"v"), Err(FdbError::KvNameErr));
    assert!(db.get_vec(&long).is_none());

    let short = [b'n'; KV_NAME_MAX - 1];
    db.set(&short, b"v").unwrap();
    assert_eq!(db.get_vec(&short).as_deref(), Some(&b"v"[..]));
}

#[test]
fn the_longest_name_is_found() {
    let mut db = open();
    let mut name = [b'n'; KV_NAME_MAX];
    db.set(&name, b"one").unwrap();
    assert_eq!(db.get_vec(&name).as_deref(), Some(&b"one"[..]));
    assert_eq!(db.get_obj(&name).unwrap().name(), &name[..]);
    db.set(&name, b"two").unwrap();
    assert_eq!(db.get_vec(&name).as_deref(), Some(&b"two"[..]));

    name[KV_NAME_MAX - 1] = 0;
    assert!(db.get_vec(&name).is_none());
    db.set(&name, b"three").unwrap();
    assert_eq!(db.get_vec(&[b'n'; KV_NAME_MAX]).as_deref(), Some(&b"two"[..]));
    assert_eq!(db.iter_collect().len(), 2);
    db.del(&name).unwrap();
    assert!(db.get_vec(&name).is_none());
}

#[test]
fn a_value_that_no_sector_can_hold_is_refused() {
    let mut db = open();
    db.set(b"k", b"old").unwrap();
    assert_eq!(db.set(b"k", &[7u8; 4096]), Err(FdbError::SavedFull));
    assert_eq!(db.get_vec(b"k").as_deref(), Some(&b"old"[..]));

    // 16 + 24 + 1 + 3966 bytes leave 89 of a sector, 3967 leave 88.
    assert_eq!(db.set(b"m", &[7u8; 3966]), Ok(()));
    assert_eq!(db.set(b"n", &[7u8; 3967]), Err(FdbError::SavedFull));
    assert_eq!(db.get_vec(b"m").unwrap(), vec![7u8; 3966]);
    assert!(db.get_vec(b"n").is_none());
}

#[test]
fn get_copies_no_more_than_the_buffer_holds() {
    let mut db = open();
    db.set(b"k", b"abcdef").unwrap();
    let mut small = [0u8; 4];
    assert_eq!(db.get(b"k", &mut small), Some(4));
    assert_eq!(&small, b"abcd");
    let mut large = [9u8; 8];
    assert_eq!(db.get(b"k", &mut large), Some(6));
    assert_eq!(&large, b"abcdef\x09\x09");
    assert_eq!(db.get(b"other", &mut large), None);
    assert_eq!(&large, b"abcdef\x09\x09");
}

#[test]
fn an_object_tells_where_its_value_is() {
    let mut db = open();
    db.set(b"first", b"xyz").unwrap();
    db.set(b"key", b"value").unwrap();
    let kv = db.get_obj(b"key").unwrap();
    assert_eq!(kv.name(), b"key");
    assert_eq!(kv.value_len(), 5);
    // The header of the sector, and the first record.
    assert_eq!(kv.addr(), 16 + 24 + 5 + 3);
    let mut buf = [0u8; 3];
    assert_eq!(db.read_value(&kv, &mut buf), 3);
    assert_eq!(&buf, b"val");
    let mut all = [0u8; 10];
    assert_eq!(db.read_value(&kv, &mut all), 5);
    assert_eq!(&all[..5], b"value");
}

#[test]
fn strings_are_printable() {
    let mut db = open();
    db.set_str(b"s", "hello ~").unwrap();
    assert_eq!(db.get_str(b"s").as_deref(), Some("hello ~"));
    db.set(b"s", b"line\n").unwrap();
    assert!(db.get_str(b"s").is_none());
    db.set(b"s", b"\x7f").unwrap();
    assert!(db.get_str(b"s").is_none());
    db.set_str(b"s", "caf\u{e9}").unwrap();
    assert_eq!(db.get_vec(b"s").as_deref(), Some("caf\u{e9}".as_bytes()));
    assert!(db.get_str(b"s").is_none());
    assert!(db.get_str(b"nothing").is_none());
    // A string of 128 bytes fits the buffer, a longer one does not.
    db.set(b"s", &[b'x'; 128]).unwrap();
    assert_eq!(db.get_str(b"s").unwrap(), "x".repeat(128));
    db.set(b"s", &[b'x'; 129]).unwrap();
    assert!(db.get_str(b"s").is_none());
}

#[test]
fn iterating_gives_every_name_once_and_counts() {
    let mut db = open();
    db.set(b"one", b"1").unwrap();
    db.set(b"two", b"22").unwrap();
    db.set(b"gone", b"x").unwrap();
    db.set(b"one", b"111").unwrap();
    db.del(b"gone").unwrap();

    let mut it = db.iterator();
    let mut names: Vec<Vec<u8>> = Vec::new();
    while db.iterate(&mut it) {
        names.push(it.current().name().to_vec());
    }
    assert_eq!(names, vec![b"two".to_vec(), b"one".to_vec()]);
    assert_eq!(it.iterated_cnt, 2);
    assert_eq!(it.iterated_obj_bytes, (24 + 3 + 2) + (24 + 3 + 3));
    assert_eq!(it.iterated_value_bytes, 5);
    let lens: Vec<usize> = db.iter_collect().iter().map(|kv| kv.value_len()).collect();
    assert_eq!(lens, vec![2, 3]);
}

#[test]
fn dump_renders_a_line_per_name() {
    let mut db = open();
    assert_eq!(db.dump(), "");
    db.set(b"a", b"hello").unwrap();
    db.set(b"b", &[1, 2]).unwrap();
    // The value of `b` stands behind the sector header, the 30 bytes of `a`, its own
    // header and its name: 16 + 30 + 24 + 1 = 0x47.
    assert_eq!(db.dump(), "a=hello\nb=blob @0x00000047 2 bytes\n");
}

#[test]
fn dump_shows_a_name_that_is_no_text() {
    let mut db = open();
    db.set(&[b'k', 0xFF], b"v").unwrap();
    assert_eq!(db.dump(), "k\u{FFFD}=v\n");
}

#[test]
fn defaults_are_written_to_a_fresh_medium_only() {
    let defaults = [DefaultKv::new(b"mode", b"auto"), DefaultKv::new(b"rate", b"9600")];
    let mut db = Kvdb::new(RamStorage::new(MAX), SEC, MAX, Some(&defaults)).unwrap();
    assert_eq!(db.get_str(b"mode").as_deref(), Some("auto"));
    assert_eq!(db.get_str(b"rate").as_deref(), Some("9600"));
    db.set_str(b"mode", "manual").unwrap();
    db.set_str(b"extra", "x").unwrap();

    let mut db = Kvdb::new(db.into_storage(), SEC, MAX, Some(&defaults)).unwrap();
    assert_eq!(db.get_str(b"mode").as_deref(), Some("manual"));
    assert_eq!(db.get_str(b"extra").as_deref(), Some("x"));

    assert_eq!(db.set_default(), Ok(()));
    assert_eq!(db.get_str(b"mode").as_deref(), Some("auto"));
    assert_eq!(db.get_str(b"rate").as_deref(), Some("9600"));
    assert!(db.get_str(b"extra").is_none());
    assert_eq!(db.oldest_addr(), 0);
}

#[test]
fn reopening_changes_no_byte() {
    let mut db = open();
    for i in 0..200u32 {
        let key = format!("key{}", i % 20);
        db.set(key.as_bytes(), &i.to_le_bytes()).unwrap();
    }
    let before = db.storage().as_bytes().to_vec();
    let mut db = reopen(db);
    assert_eq!(db.storage().as_bytes(), &before[..]);
    for i in 180..200u32 {
        let key = format!("key{}", i % 20);
        assert_eq!(db.get_vec(key.as_bytes()).unwrap(), i.to_le_bytes().to_vec());
    }
}

#[test]
fn collecting_garbage_loses_nothing() {
    let mut db = open();
    db.set(b"steady", b"rock").unwrap();
    for i in 0..5000u32 {
        db.set(b"busy", &i.to_le_bytes()).unwrap();
    }
    assert_eq!(db.get_vec(b"steady").as_deref(), Some(&b"rock"[..]));
    assert_eq!(db.get_vec(b"busy").unwrap(), 4999u32.to_le_bytes().to_vec());
    assert_eq!(db.iter_collect().len(), 2);
    assert_eq!(db.check(), Ok(()));
}

#[test]
fn a_full_database_keeps_what_it_holds() {
    let mut db = open();
    let mut stored: Vec<Vec<u8>> = Vec::new();
    loop {
        let key = format!("key{}", stored.len()).into_bytes();
        match db.set(&key, &[b'v'; 900]) {
            Ok(()) => stored.push(key),
            Err(e) => {
                assert_eq!(e, FdbError::SavedFull);
                break;
            }
        }
    }
    // Four records fit a sector, and one sector stays empty.
    assert_eq!(stored.len(), 12);
    for key in &stored {
        assert_eq!(db.get_vec(key).unwrap(), vec![b'v'; 900]);
    }
    // Deleting makes room again.
    db.del(&stored[0]).unwrap();
    assert_eq!(db.set(b"again", &[b'w'; 900]), Ok(()));
    assert_eq!(db.get_vec(b"again").unwrap(), vec![b'w'; 900]);
    for key in &stored[1..] {
        assert_eq!(db.get_vec(key).unwrap(), vec![b'v'; 900]);
    }
}

#[test]
fn bad_geometry_is_refused() {
    for (sec, max) in [(0, MAX), (SEC, 0), (3000, 12000), (SEC, SEC * 2 + 1), (SEC, SEC)] {
        let r = Kvdb::new(RamStorage::new(MAX), sec, max, None);
        assert!(matches!(r, Err(FdbError::InitFailed)));
    }
    assert!(Kvdb::new(RamStorage::new(SEC * 2), SEC, SEC * 2, None).is_ok());
}

#[test]
fn a_database_that_may_not_be_formatted_is_left_alone() {
    let r = Kvdb::with_options(RamStorage::new(MAX), SEC, MAX, None, true);
    assert!(matches!(r, Err(FdbError::ReadErr)));

    let mut db = open();
    db.set(b"k", b"v").unwrap();
    let mut bytes = db.into_storage().into_bytes();
    let r = Kvdb::with_options(RamStorage::from_bytes(bytes.clone()), SEC, MAX, None, true);
    assert_eq!(r.unwrap().get_vec(b"k").as_deref(), Some(&b"v"[..]));

    // One bad header: refused, or formatted, which keeps the other sectors.
    bytes[SEC as usize + 4] ^= 1;
    let r = Kvdb::with_options(RamStorage::from_bytes(bytes.clone()), SEC, MAX, None, true);
    assert!(matches!(r, Err(FdbError::ReadErr)));
    let mut db = Kvdb::new(RamStorage::from_bytes(bytes), SEC, MAX, None).unwrap();
    assert_eq!(db.get_vec(b"k").as_deref(), Some(&b"v"[..]));
}

#[test]
fn check_reports_a_damaged_record() {
    let mut db = open();
    db.set(b"k", b"value").unwrap();
    let at = db.get_obj(b"k").unwrap().addr() as usize;
    assert_eq!(db.check(), Ok(()));
    let mut bytes = db.into_storage().into_bytes();
    bytes[at + 24 + 1] ^= 0x40;
    let mut db = Kvdb::new(RamStorage::from_bytes(bytes), SEC, MAX, None).unwrap();
    assert!(db.get_vec(b"k").is_none());
    assert_eq!(db.check(), Err(FdbError::ReadErr));
}

#[test]
fn check_reports_a_damaged_sector_header() {
    let storage = SharedStorage::new(MAX);
    let mut db = Kvdb::new(storage.clone(), SEC, MAX, None).unwrap();
    assert_eq!(db.check(), Ok(()));
    storage.ram.borrow_mut().write(2 * SEC + 4, &[0], true).unwrap();
    assert_eq!(db.check(), Err(FdbError::InitFailed));
}

#[test]
fn failures_of_the_medium_are_reported() {
    let storage = SharedStorage::new(MAX);
    let mut db = Kvdb::new(storage.clone(), SEC, MAX, None).unwrap();
    db.set(b"k", b"v").unwrap();
    *storage.budget.borrow_mut() = 0;
    assert_eq!(db.set(b"k", b"w"), Err(FdbError::WriteErr));
    assert_eq!(db.del(b"k"), Err(FdbError::WriteErr));
    assert_eq!(db.set_default(), Err(FdbError::EraseErr));
    assert_eq!(db.get_vec(b"k").as_deref(), Some(&b"v"[..]));
}

#[test]
fn power_loss_at_any_point_of_a_replacement() {
    let base = {
        let mut db = open();
        db.set(b"cfg", b"old").unwrap();
        db.set(b"keep", b"me").unwrap();
        db.into_storage().into_bytes()
    };
    let mut seen_old = false;
    let mut seen_new = false;
    for n in 0..12u32 {
        let storage = SharedStorage::new(MAX);
        *storage.ram.borrow_mut() = RamStorage::from_bytes(base.clone());
        let mut db = Kvdb::new(storage.clone(), SEC, MAX, None).unwrap();
        *storage.budget.borrow_mut() = n;
        let _ = db.set(b"cfg", b"new");
        drop(db);
        *storage.budget.borrow_mut() = u32::MAX;
        let mut db = Kvdb::new(storage, SEC, MAX, None).unwrap();
        let v = db.get_vec(b"cfg").unwrap();
        seen_old = seen_old || v == b"old";
        seen_new = seen_new || v == b"new";
        assert!(v == b"old" || v == b"new");
        assert_eq!(db.get_vec(b"keep").as_deref(), Some(&b"me"[..]));
    }
    assert!(seen_old && seen_new);
}

#[test]
fn a_value_may_hold_a_record_when_the_power_goes_away() {
    // The value is a whole record of another database.
    let value = {
        let mut db = open();
        db.set(b"ghost", b"boo").unwrap();
        let at = db.get_obj(b"ghost").unwrap().addr() as usize;
        db.into_storage().into_bytes()[at..at + 24 + 5 + 3].to_vec()
    };
    let base = {
        let mut db = open();
        db.set(b"cfg", b"old").unwrap();
        db.into_storage().into_bytes()
    };
    for n in 0..12u32 {
        let storage = SharedStorage::new(MAX);
        *storage.ram.borrow_mut() = RamStorage::from_bytes(base.clone());
        let mut db = Kvdb::new(storage.clone(), SEC, MAX, None).unwrap();
        *storage.budget.borrow_mut() = n;
        let _ = db.set(b"cfg", &value);
        drop(db);
        *storage.budget.borrow_mut() = u32::MAX;
        let mut db = Kvdb::new(storage, SEC, MAX, None).unwrap();
        let v = db.get_vec(b"cfg").unwrap();
        assert!(v == b"old" || v == value);
        assert!(db.get_vec(b"ghost").is_none());
    }
}

#[test]
fn setting_goes_on_beside_what_a_power_loss_left() {
    let base = {
        let mut db = open();
        db.set(b"a", b"1").unwrap();
        db.into_storage().into_bytes()
    };
    for n in 0..8u32 {
        let storage = SharedStorage::new(MAX);
        *storage.ram.borrow_mut() = RamStorage::from_bytes(base.clone());
        let mut db = Kvdb::new(storage.clone(), SEC, MAX, None).unwrap();
        *storage.budget.borrow_mut() = n;
        let _ = db.set(b"b", b"2");
        drop(db);
        *storage.budget.borrow_mut() = u32::MAX;
        let mut db = Kvdb::new(storage, SEC, MAX, None).unwrap();
        let b = db.get_vec(b"b");
        assert!(b.is_none() || b.as_deref() == Some(&b"2"[..]));
        for round in 0..5u8 {
            assert_eq!(db.set(b"c", &[b'0' + round]), Ok(()));
            assert_eq!(db.get_vec(b"c"), Some(vec![b'0' + round]));
            assert_eq!(db.get_vec(b"a").as_deref(), Some(&b"1"[..]));
            assert_eq!(db.get_vec(b"b"), b);
        }
        assert_eq!(db.del(b"a"), Ok(()));
        assert!(db.get_vec(b"a").is_none());
        assert_eq!(db.get_vec(b"c"), Some(vec![b'4']));
    }
}

#[test]
fn power_loss_at_any_point_of_a_deletion() {
    let base = {
        let mut db = open();
        db.set(b"cfg", b"old").unwrap();
        db.set(b"keep", b"me").unwrap();
        db.into_storage().into_bytes()
    };
    for n in 0..4u32 {
        let storage = SharedStorage::new(MAX);
        *storage.ram.borrow_mut() = RamStorage::from_bytes(base.clone());
        let mut db = Kvdb::new(storage.clone(), SEC, MAX, None).unwrap();
        *storage.budget.borrow_mut() = n;
        let _ = db.del(b"cfg");
        *storage.budget.borrow_mut() = u32::MAX;
        let mut db = Kvdb::new(storage, SEC, MAX, None).unwrap();
        assert_eq!(db.get_vec(b"cfg").is_some(), n == 0);
        assert_eq!(db.get_vec(b"keep").as_deref(), Some(&b"me"[..]));
        assert_eq!(db.check(), Ok(()));
    }
}

#[test]
fn a_database_can_be_opened_on_a_borrowed_storage() {
    let mut ram = RamStorage::new(MAX);
    {
        let mut db = Kvdb::new(&mut ram, SEC, MAX, None).unwrap();
        db.set(b"k", b"v").unwrap();
    }
    let mut db = Kvdb::new(ram.clone(), SEC, MAX, None).unwrap();
    assert_eq!(db.get_vec(b"k").as_deref(), Some(&b"v"[..]));
}

#[test]
fn power_loss_at_any_point_of_a_collection() {
    // Fill the database until the next value needs garbage to be collected.
    let mut db = open();
    for i in 0..4u32 {
        db.set(format!("keep{i}").as_bytes(), &[i as u8; 40]).unwrap();
    }
    let mut base = Vec::new();
    let mut last = 0;
    for i in 0..1000u32 {
        base = db.storage().as_bytes().to_vec();
        let oldest = db.oldest_addr();
        db.set(b"busy", &i.to_le_bytes()).unwrap();
        if db.oldest_addr() != oldest {
            last = i;
            break;
        }
    }
    assert!(last > 0);
    for n in 0..60u32 {
        let storage = SharedStorage::new(MAX);
        *storage.ram.borrow_mut() = RamStorage::from_bytes(base.clone());
        let mut db = Kvdb::new(storage.clone(), SEC, MAX, None).unwrap();
        *storage.budget.borrow_mut() = n;
        let _ = db.set(b"busy", &last.to_le_bytes());
        *storage.budget.borrow_mut() = u32::MAX;
        let mut db = Kvdb::new(storage, SEC, MAX, None).unwrap();
        let busy = db.get_vec(b"busy").unwrap();
        assert!(busy == last.to_le_bytes() || busy == (last - 1).to_le_bytes());
        for i in 0..4u32 {
            assert_eq!(db.get_vec(format!("keep{i}").as_bytes()).unwrap(), vec![i as u8; 40]);
        }
        assert_eq!(db.set(b"after", b"works"), Ok(()));
        assert_eq!(db.get_vec(b"after").as_deref(), Some(&b"works"[..]));
    }
}

#[test]
fn a_storage_that_is_too_small_is_used_as_far_as_it_goes() {
    // The last two sectors lie outside.
    let mut db = Kvdb::new(RamStorage::new(2 * SEC), SEC, MAX, None).unwrap();
    assert_eq!(db.set(b"k", b"v"), Ok(()));
    assert_eq!(db.get_vec(b"k").as_deref(), Some(&b"v"[..]));
    assert_eq!(db.check(), Err(FdbError::InitFailed));
}
