//! Low-level flash helpers shared by the key-value and the time-series database.
use vstd::prelude::*;

use crate::def::{status_table_size, BYTE_ERASED, BYTE_WRITTEN};
use crate::error::Result;
use crate::status;
use crate::status::{get_status, set_status};
use crate::storage;
use crate::storage::{Medium, Storage};

verus! {

/// Scratch size that is large enough for every status table in use.
pub const STATUS_SCRATCH: usize = 4;

/// `n` erased bytes.
pub open spec fn erased(n: int) -> Seq<u8> {
    Seq::new(n as nat, |i: int| 0xFFu8)
}

/// `n` zero bytes.
pub open spec fn zeros(n: int) -> Seq<u8> {
    Seq::new(n as nat, |i: int| 0u8)
}

/// Whether `s` is a regular backend whose medium lies within the 32-bit address space.
pub open spec fn backs<S: Storage>(s: &S) -> bool {
    (*s).regular() && (*s).medium().bytes.len() <= 0xFFFF_FFFF
}

/// The medium after programming the status with index `i` at `addr`, flushed where `sync`
/// says so. Index 0 is the erased pattern, so nothing is written for it.
pub open spec fn put_status(m: Medium, addr: int, i: int, sync: bool) -> Medium {
    if i > 0 {
        m.program(addr + status::status_place(i), seq![status::status_byte(i)], sync)
    } else {
        m
    }
}

/// What programming the status with index `i` at `addr` reports.
pub open spec fn put_status_result(m: Medium, addr: int, i: int) -> Result<()> {
    if i > 0 {
        storage::program_result(m, addr + status::status_place(i), 1)
    } else {
        Ok(())
    }
}

/// The status out of `num` that the table at `addr` holds.
pub open spec fn status_at(m: Medium, addr: int, num: int) -> int {
    status::decode_status(m.fetch(addr, erased((num + 7) / 8)), num)
}

/// The medium after programming `data` at `addr` without flushing it, nothing where there is
/// no data.
pub open spec fn put_data(m: Medium, addr: int, data: Seq<u8>) -> Medium {
    if data.len() == 0 {
        m
    } else {
        m.program(addr, data, false)
    }
}

/// What programming `data` at `addr` reports.
pub open spec fn put_data_result(m: Medium, addr: int, data: Seq<u8>) -> Result<()> {
    if data.len() == 0 {
        Ok(())
    } else {
        storage::program_result(m, addr, data.len() as int)
    }
}

/// The address from which everything up to `end` is erased, looking no further down
/// than `start`; `end` where the last byte is not erased.
pub open spec fn erased_tail(bytes: Seq<u8>, start: int, end: int) -> int
    decreases end - start,
{
    if start >= end || bytes[end - 1] != BYTE_ERASED {
        end
    } else {
        erased_tail(bytes, start, end - 1)
    }
}

/// From the address that `erased_tail` gives on, everything is erased; and the byte
/// before it, if it is not the first, is not.
pub proof fn erased_tail_is_maximal(bytes: Seq<u8>, start: int, end: int)
    requires
        0 <= start <= end <= bytes.len(),
    ensures
        start <= erased_tail(bytes, start, end) <= end,
        forall|i: int| erased_tail(bytes, start, end) <= i < end ==> bytes[i] == BYTE_ERASED,
        erased_tail(bytes, start, end) > start ==> bytes[erased_tail(bytes, start, end) - 1]
            != BYTE_ERASED,
    decreases end - start,
{
    if start < end && bytes[end - 1] == BYTE_ERASED {
        erased_tail_is_maximal(bytes, start, end - 1);
    }
}

/// The bytes from `at` up to `end` as they are seen when they are read in pieces through the
/// buffer `buf`: where a piece does not lie within the medium, what the buffer held before is
/// seen in its place.
pub open spec fn seen(m: Medium, at: int, end: int, buf: Seq<u8>) -> Seq<u8>
    decreases end - at,
{
    if at >= end {
        Seq::empty()
    } else {
        let n = if end - at >= 32 {
            32
        } else {
            end - at
        };
        let piece = m.fetch(at, buf.subrange(0, n));
        piece + seen(m, at + n, end, piece + buf.subrange(n, buf.len() as int))
    }
}

/// The address from which everything up to `end` is seen as erased, looking no further down
/// than `start`; `end` where the last byte is not.
pub open spec fn seen_tail(m: Medium, start: int, end: int) -> int {
    if start >= end {
        end
    } else {
        start + erased_tail(seen(m, start, end, zeros(32)), 0, end - start)
    }
}

/// Within the medium the bytes are seen as they are.
proof fn lemma_seen(m: Medium, at: int, end: int, buf: Seq<u8>)
    requires
        0 <= at <= end <= m.bytes.len(),
        buf.len() == 32,
    ensures
        seen(m, at, end, buf) == m.bytes.subrange(at, end),
    decreases end - at,
{
    if at < end {
        let n = if end - at >= 32 {
            32
        } else {
            end - at
        };
        let piece = m.fetch(at, buf.subrange(0, n));
        lemma_seen(m, at + n, end, piece + buf.subrange(n, 32));
        assert(seen(m, at, end, buf) =~= m.bytes.subrange(at, end));
    } else {
        assert(m.bytes.subrange(at, end) =~= Seq::empty());
    }
}

proof fn lemma_tail_shift(bytes: Seq<u8>, start: int, end: int, n: int)
    requires
        0 <= start <= end <= bytes.len(),
        0 <= n <= end - start,
    ensures
        start + erased_tail(bytes.subrange(start, end), 0, n) == erased_tail(
            bytes,
            start,
            start + n,
        ),
    decreases n,
{
    if n > 0 {
        lemma_tail_shift(bytes, start, end, n - 1);
    }
}

/// Within the medium what is seen as erased is erased.
pub proof fn lemma_seen_tail(m: Medium, start: int, end: int)
    requires
        0 <= start <= end <= m.bytes.len(),
    ensures
        seen_tail(m, start, end) == erased_tail(m.bytes, start, end),
{
    lemma_seen(m, start, end, zeros(32));
    lemma_tail_shift(m.bytes, start, end, end - start);
}

/// Programming erased bytes only clears bits.
pub proof fn lemma_clears_erased(m: Medium, addr: int, data: Seq<u8>)
    requires
        forall|j: int| addr <= j < addr + data.len() ==> #[trigger] m.bytes[j] == 0xFF,
    ensures
        m.program(addr, data, true).clears == m.clears,
        m.program(addr, data, false).clears == m.clears,
        put_data(m, addr, data).clears == m.clears,
{
    assert forall|i: int| 0 <= i < data.len() implies storage::by_clearing(
        m.bytes[addr + i],
        #[trigger] data[i],
    ) by {
        let x = data[i];
        assert(0xFFu8 & x == x) by (bit_vector);
        assert(m.bytes[addr + i] == 0xFF);
    }
}

/// Programming a later status in the place of an earlier one only clears bits.
pub proof fn lemma_clears_status(m: Medium, addr: int, i: int, j: int)
    requires
        0 <= i <= j < 8,
        m.bytes[addr] == status::status_byte(i),
    ensures
        put_status(m, addr, j, true).clears == m.clears,
        put_status(m, addr, j, false).clears == m.clears,
{
    if j > 0 {
        let x = i as u8;
        let y = j as u8;
        let data = seq![status::status_byte(j)];
        assert((0xFFu8 >> x) & (0xFFu8 >> y) == 0xFFu8 >> y) by (bit_vector)
            requires
                x <= y < 8,
        ;
        assert forall|k: int| 0 <= k < data.len() implies storage::by_clearing(
            m.bytes[addr + k],
            #[trigger] data[k],
        ) by {
            assert(k == 0);
        }
        assert(status::status_place(j) == 0);
    }
}

/// Program a new status value into the status table at `addr`.
pub fn write_status<S: Storage>(
    s: &mut S,
    addr: u32,
    status_num: usize,
    status_index: usize,
    sync: bool,
) -> (r: Result<()>)
    requires
        status_index < status_num <= 8 * STATUS_SCRATCH,
        status_index > 0 ==> addr + status::status_place(status_index as int) <= u32::MAX,
    ensures
        (*old(s)).regular() ==> {
            &&& (*final(s)).regular()
            &&& (*final(s)).medium() == put_status(
                (*old(s)).medium(),
                addr as int,
                status_index as int,
                sync,
            )
            &&& r == put_status_result((*old(s)).medium(), addr as int, status_index as int)
        },
{
    let mut table: [u8; STATUS_SCRATCH] = [0xFFu8; STATUS_SCRATCH];
    match set_status(&mut table, status_num, status_index) {
        None => Ok(()),
        Some(byte_index) => {
            let one: [u8; 1] = [table[byte_index]];
            proof {
                let y = status::status_byte(status_index as int);
                assert(0xFFu8 & y == y) by (bit_vector);
                assert(one@ =~= seq![y]);
            }
            s.write(addr + byte_index as u32, &one, sync)
        },
    }
}

/// Read and decode the status value stored at `addr`. A failed read is ignored: the
/// table then counts as erased.
pub fn read_status<S: Storage>(s: &mut S, addr: u32, total_num: usize) -> (r: usize)
    requires
        1 <= total_num <= 8 * STATUS_SCRATCH,
    ensures
        r < total_num,
        (*old(s)).regular() ==> {
            &&& (*final(s)).regular()
            &&& (*final(s)).medium() == (*old(s)).medium()
            &&& r == status_at((*old(s)).medium(), addr as int, total_num as int)
        },
{
    let size: usize = status_table_size(total_num);
    let mut table: Vec<u8> = vec![0xFFu8; size];
    assert(table@ =~= erased((total_num + 7) / 8));
    let _ = s.read(addr, table.as_mut_slice());
    get_status(table.as_slice(), total_num)
}

/// Find the address from which the flash is continuously erased up to `end`.
pub fn continue_ff_addr<S: Storage>(s: &mut S, start: u32, end: u32) -> (r: u32)
    ensures
        r <= end,
        start <= end ==> start <= r,
        start >= end ==> r == end,
        (*old(s)).regular() ==> {
            &&& (*final(s)).regular()
            &&& (*final(s)).medium() == (*old(s)).medium()
            &&& r == seen_tail((*old(s)).medium(), start as int, end as int)
            &&& start <= end <= (*old(s)).medium().bytes.len() ==> r == erased_tail(
                (*old(s)).medium().bytes,
                start as int,
                end as int,
            )
        },
{
    if start >= end {
        proof {
            if start == end && end <= (*s).medium().bytes.len() {
                lemma_seen_tail((*s).medium(), start as int, end as int);
            }
        }
        return end;
    }
    let mut buf: Vec<u8> = vec![0u8; 32];
    let mut last_data: u8 = BYTE_WRITTEN;
    let mut addr: u32 = start;
    let mut at: u32 = start;
    let ghost m = (*s).medium();
    let ghost known = (*s).regular();
    let ghost all = seen(m, start as int, end as int, zeros(32));
    let ghost mut got: Seq<u8> = seq![];
    proof {
        assert(buf@ =~= zeros(32));
        assert(all =~= got + seen(m, at as int, end as int, buf@));
    }
    while at < end
        invariant
            start <= at <= end,
            start <= addr <= end,
            buf@.len() == 32,
            m == (*old(s)).medium(),
            known == (*old(s)).regular(),
            known ==> (*s).regular() && (*s).medium() == m,
            got.len() == at - start,
            known ==> all == got + seen(m, at as int, end as int, buf@),
            known ==> {
                &&& last_data == BYTE_ERASED ==> addr == start + erased_tail(all, 0, at - start)
                &&& last_data != BYTE_ERASED ==> erased_tail(all, 0, at - start) == at - start
            },
        decreases end - at,
    {
        let read_size: usize = if end - at >= 32 {
            32
        } else {
            (end - at) as usize
        };
        let ghost was = buf@;
        {
            let (head, _tail) = buf.as_mut_slice().split_at_mut(read_size);
            let _ = s.read(at, head);
        }
        let ghost piece = m.fetch(at as int, was.subrange(0, read_size as int));
        proof {
            if known {
                assert(buf@ =~= piece + was.subrange(read_size as int, 32));
                let rest = seen(m, at + read_size, end as int, buf@);
                assert(all == got + (piece + rest));
                assert(all =~= (got + piece) + rest);
                assert forall|j: int| 0 <= j < read_size implies buf@[j] == all[at - start + j] by {
                    assert(all[at - start + j] == piece[j]);
                }
            }
        }
        let mut i: usize = 0;
        while i < read_size
            invariant
                i <= read_size <= 32,
                at + read_size <= end,
                start <= at,
                buf@.len() == 32,
                start <= addr <= end,
                known ==> forall|j: int| 0 <= j < read_size ==> buf@[j] == all[at - start + j],
                known ==> {
                    &&& last_data == BYTE_ERASED ==> addr == start + erased_tail(
                        all,
                        0,
                        at - start + i,
                    )
                    &&& last_data != BYTE_ERASED ==> erased_tail(all, 0, at - start + i) == at
                        - start + i
                },
            decreases read_size - i,
        {
            let b: u8 = buf[i];
            if last_data != BYTE_ERASED && b == BYTE_ERASED {
                addr = at + i as u32;
            }
            last_data = b;
            i = i + 1;
        }
        proof {
            got = got + piece;
        }
        at = at + read_size as u32;
    }
    proof {
        if end <= m.bytes.len() {
            lemma_seen_tail(m, start as int, end as int);
        }
    }
    if last_data == BYTE_ERASED {
        addr
    } else {
        end
    }
}

/// Program `buf` at `addr`, unsynced; nothing where it is empty.
pub fn write_align<S: Storage>(s: &mut S, addr: u32, buf: &[u8]) -> (r: Result<()>)
    ensures
        (*old(s)).regular() ==> {
            &&& (*final(s)).regular()
            &&& (*final(s)).medium() == put_data((*old(s)).medium(), addr as int, buf@)
            &&& r == put_data_result((*old(s)).medium(), addr as int, buf@)
        },
{
    if buf.is_empty() {
        return Ok(());
    }
    s.write(addr, buf, false)
}

} // verus!
