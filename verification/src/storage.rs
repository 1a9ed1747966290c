//! Storage backends and the [`Storage`] abstraction.
//!
//! The database treats its backing medium as one flat address space split into
//! equal-sized sectors. Programming may only clear bits (`1 -> 0`); erasing a
//! sector restores it to all-ones. The database engine only ever programs bit
//! patterns that are subsets of what is already there, so a backend may simply
//! overwrite bytes on `write` and fill with `0xFF` on `erase`.
use vstd::prelude::*;

use crate::codec;
use crate::error::{FdbError, Result};

verus! {

/// A flash medium as the database sees it: its bytes; what of them a backend that holds
/// writes back was made to flush; how many more program and erase operations it attempts
/// before the power is lost (`None`: no end); whether programming only ever cleared bits so
/// far; and what was erased so far, each time by its address and its length.
pub struct Medium {
    pub bytes: Seq<u8>,
    pub flushed: Seq<u8>,
    pub budget: Option<nat>,
    pub clears: bool,
    pub erases: Set<(int, int)>,
}

/// A medium that holds `bytes`, all of them flushed, and to which nothing was done yet.
pub open spec fn medium_of(bytes: Seq<u8>) -> Medium {
    Medium { bytes, flushed: bytes, budget: None, clears: true, erases: Set::empty() }
}

/// Whether a byte that holds `was` comes to hold `to` by clearing bits.
pub open spec fn by_clearing(was: u8, to: u8) -> bool {
    was & to == to
}

/// Whether programming `data` at `addr` of `bytes` only clears bits.
pub open spec fn only_clears(bytes: Seq<u8>, addr: int, data: Seq<u8>) -> bool {
    forall|i: int| 0 <= i < data.len() ==> by_clearing(bytes[addr + i], #[trigger] data[i])
}

impl Medium {
    /// Whether the `len` bytes from `addr` on lie within the medium.
    pub open spec fn holds(self, addr: int, len: int) -> bool {
        0 <= addr && addr + len <= self.bytes.len()
    }

    /// What a buffer that held `buf` holds after reading at `addr`: the bytes there,
    /// or what it held before where they do not all lie within the medium.
    pub open spec fn fetch(self, addr: int, buf: Seq<u8>) -> Seq<u8> {
        if self.holds(addr, buf.len() as int) {
            self.bytes.subrange(addr, addr + buf.len())
        } else {
            buf
        }
    }

    /// Whether the power is still there.
    pub open spec fn powered(self) -> bool {
        self.budget != Some(0nat)
    }

    /// What is left to spend after one more attempt.
    pub open spec fn spend(self) -> Option<nat> {
        match self.budget {
            Some(n) => if n == 0 {
                Some(0nat)
            } else {
                Some((n - 1) as nat)
            },
            None => None,
        }
    }

    /// Whether programming or erasing `len` bytes at `addr` is carried out.
    pub open spec fn accepts(self, addr: int, len: int) -> bool {
        self.powered() && self.holds(addr, len)
    }

    /// The medium after an attempt to program `data` at `addr`, and to flush it where `sync`
    /// says so.
    pub open spec fn program(self, addr: int, data: Seq<u8>, sync: bool) -> Medium {
        Medium {
            bytes: if self.accepts(addr, data.len() as int) {
                codec::splice(self.bytes, addr, data)
            } else {
                self.bytes
            },
            flushed: if sync && self.accepts(addr, data.len() as int) {
                codec::splice(self.flushed, addr, data)
            } else {
                self.flushed
            },
            budget: self.spend(),
            clears: self.clears && (self.accepts(addr, data.len() as int) ==> only_clears(
                self.bytes,
                addr,
                data,
            )),
            erases: self.erases,
        }
    }

    /// The medium after an attempt to erase `len` bytes at `addr`, which is always flushed.
    pub open spec fn erase(self, addr: int, len: int) -> Medium {
        Medium {
            bytes: if self.accepts(addr, len) {
                codec::splice(self.bytes, addr, Seq::new(len as nat, |i: int| 0xFFu8))
            } else {
                self.bytes
            },
            flushed: if self.accepts(addr, len) {
                codec::splice(self.flushed, addr, Seq::new(len as nat, |i: int| 0xFFu8))
            } else {
                self.flushed
            },
            budget: self.spend(),
            clears: self.clears,
            erases: if self.accepts(addr, len) {
                self.erases.insert((addr, len))
            } else {
                self.erases
            },
        }
    }
}

/// What programming `len` bytes at `addr` of `m` reports.
pub open spec fn program_result(m: Medium, addr: int, len: int) -> Result<()> {
    if m.accepts(addr, len) {
        Ok(())
    } else {
        Err(FdbError::WriteErr)
    }
}

/// What erasing `len` bytes at `addr` of `m` reports.
pub open spec fn erase_result(m: Medium, addr: int, len: int) -> Result<()> {
    if m.accepts(addr, len) {
        Ok(())
    } else {
        Err(FdbError::EraseErr)
    }
}

/// A flat, sector-addressable storage medium.
///
/// All addresses are byte offsets from the start of the database region. A backend
/// that keeps to the model of [`Medium`] is `regular`; of any other nothing is
/// known but that it keeps its buffers.
pub trait Storage {
    /// The medium behind this backend.
    open spec fn medium(&self) -> Medium {
        medium_of(Seq::empty())
    }

    /// Whether this backend keeps to the model of a flash medium; of a backend that does
    /// not say so nothing is known.
    open spec fn regular(&self) -> bool {
        false
    }

    /// Read `buf.len()` bytes starting at `addr` into `buf`.
    fn read(&mut self, addr: u32, buf: &mut [u8]) -> (r: Result<()>)
        ensures
            final(buf)@.len() == old(buf)@.len(),
            old(self).regular() ==> {
                &&& final(self).regular()
                &&& final(self).medium() == old(self).medium()
                &&& final(buf)@ == old(self).medium().fetch(addr as int, old(buf)@)
                &&& r == (if old(self).medium().holds(addr as int, old(buf)@.len() as int) {
                    Ok(())
                } else {
                    Err(FdbError::ReadErr)
                })
            },
    ;

    /// Program `buf` at `addr`. When `sync` is true the write must be flushed to
    /// the underlying medium before returning.
    fn write(&mut self, addr: u32, buf: &[u8], sync: bool) -> (r: Result<()>)
        ensures
            old(self).regular() ==> {
                &&& final(self).regular()
                &&& final(self).medium() == old(self).medium().program(addr as int, buf@, sync)
                &&& r == program_result(old(self).medium(), addr as int, buf@.len() as int)
            },
    ;

    /// Erase `size` bytes starting at `addr`, restoring them to `0xFF`. `addr` and
    /// `size` are always sector-aligned.
    fn erase(&mut self, addr: u32, size: u32) -> (r: Result<()>)
        ensures
            old(self).regular() ==> {
                &&& final(self).regular()
                &&& final(self).medium() == old(self).medium().erase(addr as int, size as int)
                &&& r == erase_result(old(self).medium(), addr as int, size as int)
            },
    ;
}

impl<S: Storage> Storage for &mut S {
    open spec fn medium(&self) -> Medium {
        (**self).medium()
    }

    open spec fn regular(&self) -> bool {
        (**self).regular()
    }

    fn read(&mut self, addr: u32, buf: &mut [u8]) -> (r: Result<()>) {
        (**self).read(addr, buf)
    }

    fn write(&mut self, addr: u32, buf: &[u8], sync: bool) -> (r: Result<()>) {
        (**self).write(addr, buf, sync)
    }

    fn erase(&mut self, addr: u32, size: u32) -> (r: Result<()>) {
        (**self).erase(addr, size)
    }
}

/// An in-memory storage backend backed by a single `Vec<u8>`.
///
/// Useful for tests and for bringing the database up on a new platform before a
/// real flash driver exists. The whole capacity starts out erased (`0xFF`).
pub struct RamStorage {
    mem: Vec<u8>,
    past: Ghost<Medium>,
}

impl Clone for RamStorage {
    fn clone(&self) -> (r: Self)
        ensures
            r.contents() == self.contents(),
            r.history() == self.history(),
    {
        let mem: Vec<u8> = vstd::slice::slice_to_vec(self.mem.as_slice());
        RamStorage { mem, past: self.past }
    }
}

impl RamStorage {
    /// The bytes of this backend.
    pub closed spec fn contents(&self) -> Seq<u8> {
        self.mem@
    }

    /// What was done to this backend: what of it is flushed, whether every write only
    /// cleared bits, and what was erased.
    pub closed spec fn history(&self) -> Medium {
        self.past@
    }

    /// This backend as a medium. It never loses its power.
    pub open spec fn as_medium(&self) -> Medium {
        Medium { bytes: self.contents(), budget: None, ..self.history() }
    }

    /// Create a backend with `capacity` bytes, all erased to `0xFF`.
    pub fn new(capacity: u32) -> (r: Self)
        ensures
            r.contents() == Seq::new(capacity as nat, |i: int| 0xFFu8),
            r.as_medium() == medium_of(r.contents()),
    {
        let mem: Vec<u8> = vec![0xFFu8; capacity as usize];
        assert(mem@ =~= Seq::new(capacity as nat, |i: int| 0xFFu8));
        let ghost past = medium_of(mem@);
        RamStorage { mem, past: Ghost(past) }
    }

    /// Create a backend that holds `bytes`.
    pub fn from_bytes(bytes: Vec<u8>) -> (r: Self)
        ensures
            r.contents() == bytes@,
            r.as_medium() == medium_of(bytes@),
    {
        let ghost past = medium_of(bytes@);
        RamStorage { mem: bytes, past: Ghost(past) }
    }

    /// Borrow the raw backing bytes (handy for assertions in tests).
    pub fn as_bytes(&self) -> (r: &[u8])
        ensures
            r@ == self.contents(),
    {
        self.mem.as_slice()
    }

    /// Consume the backend and return its bytes.
    pub fn into_bytes(self) -> (r: Vec<u8>)
        ensures
            r@ == self.contents(),
    {
        self.mem
    }

    /// Whether `len` bytes from `addr` on lie within the backend.
    fn covers(&self, addr: u32, len: usize) -> (r: bool)
        ensures
            r == (addr + len <= self.mem@.len()),
    {
        let cap: usize = self.mem.len();
        (addr as usize) <= cap && len <= cap - addr as usize
    }
}

impl Storage for RamStorage {
    open spec fn medium(&self) -> Medium {
        self.as_medium()
    }

    open spec fn regular(&self) -> bool {
        true
    }

    fn read(&mut self, addr: u32, buf: &mut [u8]) -> (r: Result<()>)
        ensures
            final(self).contents() == old(self).contents(),
            final(self).history() == old(self).history(),
    {
        let n: usize = buf.len();
        if !self.covers(addr, n) {
            return Err(FdbError::ReadErr);
        }
        let start: usize = addr as usize;
        let mut i: usize = 0;
        while i < n
            invariant
                i <= n,
                n == buf@.len(),
                n == old(buf)@.len(),
                start == addr,
                start + n <= self.mem@.len(),
                self.mem.len() == self.mem@.len(),
                self.mem@ == old(self).mem@,
                self.past == old(self).past,
                forall|j: int| 0 <= j < i ==> buf@[j] == self.mem@[start + j],
            decreases n - i,
        {
            buf[i] = self.mem[start + i];
            i = i + 1;
        }
        assert(buf@ =~= self.mem@.subrange(addr as int, addr + n));
        Ok(())
    }

    fn write(&mut self, addr: u32, buf: &[u8], sync: bool) -> (r: Result<()>)
    {
        let n: usize = buf.len();
        if !self.covers(addr, n) {
            return Err(FdbError::WriteErr);
        }
        let ghost next = self.as_medium().program(addr as int, buf@, sync);
        let start: usize = addr as usize;
        let mut i: usize = 0;
        while i < n
            invariant
                i <= n,
                n == buf@.len(),
                start == addr,
                start + n <= self.mem@.len(),
                self.mem.len() == self.mem@.len(),
                self.mem@ =~= codec::splice(old(self).mem@, start as int, buf@.take(i as int)),
                self.past == old(self).past,
            decreases n - i,
        {
            self.mem.set(start + i, buf[i]);
            i = i + 1;
        }
        assert(buf@.take(n as int) =~= buf@);
        proof {
            self.past@ = next;
        }
        Ok(())
    }

    fn erase(&mut self, addr: u32, size: u32) -> (r: Result<()>)
    {
        let n: usize = size as usize;
        if !self.covers(addr, n) {
            return Err(FdbError::EraseErr);
        }
        let ghost next = self.as_medium().erase(addr as int, size as int);
        let start: usize = addr as usize;
        let mut i: usize = 0;
        while i < n
            invariant
                i <= n,
                n == size,
                start == addr,
                start + n <= self.mem@.len(),
                self.mem.len() == self.mem@.len(),
                self.mem@ =~= codec::splice(
                    old(self).mem@,
                    start as int,
                    Seq::new(i as nat, |k: int| 0xFFu8),
                ),
                self.past == old(self).past,
            decreases n - i,
        {
            self.mem.set(start + i, 0xFFu8);
            i = i + 1;
        }
        proof {
            self.past@ = next;
        }
        Ok(())
    }
}

} // verus!
