//! What is flushed: a status that makes a record or a log count, or no longer count, is
//! flushed before the operation that writes it reports success, and so are the records that
//! garbage collection moves and the headers of formatted sectors.
use vstd::prelude::*;

use crate::db::Geo;
use crate::def;
use crate::def::{KvStatus, TslStatus};
use crate::flash;
use crate::kv_model as kv;
use crate::kv_model::{Node, SecInfo};
use crate::status;
use crate::storage::Medium;
use crate::ts_model as ts;
use crate::ts_model::{TsSec, TsState};

verus! {

/// Whether what the medium holds at `x` is flushed.
pub open spec fn flushed_at(m: Medium, x: int) -> bool {
    m.flushed[x] == m.bytes[x]
}

/// Whether the medium knows of each of its bytes what of it is flushed.
pub open spec fn flush_known(m: Medium) -> bool {
    m.flushed.len() == m.bytes.len()
}

/// A status that is programmed with a flush is flushed, and nothing else changes.
proof fn lemma_status(m: Medium, a: int, i: int)
    requires
        flush_known(m),
        0 < i < 8,
        flash::put_status_result(m, a, i) is Ok,
    ensures
        ({
            let m1 = flash::put_status(m, a, i, true);
            &&& flush_known(m1)
            &&& m1.bytes[a] == status::status_byte(i)
            &&& flushed_at(m1, a)
            &&& forall|x: int| 0 <= x < m.bytes.len() && x != a ==> (#[trigger] m1.bytes[x])
                == m.bytes[x] && m1.flushed[x] == m.flushed[x]
        }),
{
}

/// Writing a record of the key-value database: where it succeeds the status that says that
/// the record is live is flushed.
pub proof fn a_written_record_is_live_for_good(
    m: Medium,
    at: int,
    name: Seq<u8>,
    value: Seq<u8>,
)
    requires
        flush_known(m),
        kv::write_record(m, at, name, value).1 is Ok,
    ensures
        ({
            let m1 = kv::write_record(m, at, name, value).0;
            m1.bytes[at] == status::status_byte(def::kv_index_of(KvStatus::Write)) && flushed_at(
                m1,
                at,
            )
        }),
{
    let m1 = kv::write_header(m, at, kv::record_header(name, value)).0;
    let m2 = flash::put_data(m1, at + 24, name);
    let m3 = flash::put_data(m2, at + 24 + name.len(), value);
    assert(flush_known(m1) && flush_known(m2) && flush_known(m3));
    lemma_status(m3, at, 2);
}

/// Deleting a record of the key-value database: where it succeeds the status that says that
/// the record is deleted is flushed. Records lie behind the header of a sector.
pub proof fn a_deleted_record_is_gone_for_good(m: Medium, geo: Geo, at: int)
    requires
        flush_known(m),
        geo.sec > 0,
        at % geo.sec >= 16,
        kv::delete_at(m, geo, at, true).1 is Ok,
    ensures
        ({
            let m1 = kv::delete_at(m, geo, at, true).0;
            m1.bytes[at] == status::status_byte(def::kv_index_of(KvStatus::Deleted)) && flushed_at(
                m1,
                at,
            )
        }),
{
    reveal(kv::delete_at);
    lemma_status(m, at, 4);
    let m1 = flash::put_status(m, at, 4, true);
    let d = kv::dirty_place(geo, at);
    if flash::status_at(m1, d, 4) == 1 {
        lemma_status(m1, d, 2);
    }
}

/// Copying bytes flushes each of them.
proof fn lemma_copy(m: Medium, src: int, dst: int, total: int, done: int, buf: Seq<u8>)
    requires
        flush_known(m),
        0 <= done,
        0 <= dst,
        buf.len() == 32,
        kv::copy_data(m, src, dst, total, done, buf).1 is Ok,
        forall|x: int| dst <= x < dst + done ==> #[trigger] flushed_at(m, x),
    ensures
        ({
            let m1 = kv::copy_data(m, src, dst, total, done, buf).0;
            &&& flush_known(m1)
            &&& m1.bytes.len() == m.bytes.len()
            &&& done < total ==> dst + total <= m.bytes.len()
            &&& forall|x: int| dst <= x < dst + total ==> #[trigger] flushed_at(m1, x)
        }),
    decreases total - done,
{
    if done < total {
        let size = kv::least(32, total - done);
        let next = kv::fetch_head(m, src + done, buf, size);
        let m1 = m.program(dst + done, next.subrange(0, size), true);
        assert(next.len() == 32);
        assert(m.accepts(dst + done, size));
        assert forall|x: int| dst <= x < dst + done + size implies #[trigger] flushed_at(m1, x) by {
            if x < dst + done {
                assert(flushed_at(m, x));
            }
        }
        lemma_copy(m1, src, dst, total, done + size, next);
    }
}

/// Moving a record of the key-value database to another sector: where it succeeds all of the
/// copy is flushed, and so is the status that says that it is live.
pub proof fn a_moved_record_is_kept_for_good(m: Medium, n: Node, s: SecInfo)
    requires
        flush_known(m),
        0 <= s.empty,
        kv::move_body(m, n, s).1 is Ok,
    ensures
        ({
            let m1 = kv::move_body(m, n, s).0;
            &&& m1.bytes[s.empty] == status::status_byte(def::kv_index_of(KvStatus::Write))
            &&& flushed_at(m1, s.empty)
            &&& forall|x: int| s.empty + 4 <= x < s.empty + n.len ==> #[trigger] flushed_at(m1, x)
        }),
{
    let m1 = kv::note_use(m, s, n.len).0;
    let m2 = flash::put_status(m1, s.empty, 1, false);
    let (m3, r3) = kv::copy_data(
        m2,
        n.at + 4,
        s.empty + 4,
        n.len - 4,
        0,
        flash::zeros(32),
    );
    assert(flush_known(m1) && flush_known(m2));
    lemma_copy(m2, n.at + 4, s.empty + 4, n.len - 4, 0, flash::zeros(32));
    lemma_status(m3, s.empty, 2);
    let m4 = flash::put_status(m3, s.empty, 2, true);
    assert forall|x: int| s.empty + 4 <= x < s.empty + n.len implies #[trigger] flushed_at(
        m4,
        x,
    ) by {
        assert(flushed_at(m3, x));
        assert(m4.bytes[x] == m3.bytes[x]);
    }
}

/// Formatting a sector of the key-value database: where it succeeds the whole sector is
/// flushed, its header too.
pub proof fn a_formatted_sector_is_kept_for_good(m: Medium, geo: Geo, at: int, combined: int)
    requires
        flush_known(m),
        geo.sec >= 16,
        kv::format(m, geo, at, combined).1 is Ok,
    ensures
        forall|x: int|
            at <= x < at + geo.sec ==> #[trigger] flushed_at(kv::format(m, geo, at, combined).0, x),
{
    let m1 = m.erase(at, geo.sec);
    let hdr = kv::fresh_sector_header(combined);
    let m2 = m1.program(at, hdr, true);
    assert forall|x: int| at <= x < at + geo.sec implies #[trigger] flushed_at(m2, x) by {
        assert(flushed_at(m1, x));
    }
}

/// Writing a log of the time-series database: where it succeeds the status that says that
/// the log is written is flushed.
pub proof fn a_written_log_counts_for_good(m: Medium, s: TsSec, blob: Seq<u8>, time: int)
    requires
        flush_known(m),
        ts::write_log(m, s, blob, time).1 is Ok,
    ensures
        ({
            let m1 = ts::write_log(m, s, blob, time).0;
            m1.bytes[s.empty_idx] == status::status_byte(def::tsl_index_of(TslStatus::Write))
                && flushed_at(m1, s.empty_idx)
        }),
{
    let at = s.empty_idx;
    let data_at = ts::above_zero(s.empty_data - blob.len());
    let m1 = flash::put_status(m, at, 1, false);
    let m2 = m1.program(at + 4, ts::record_tail(time, blob.len() as int, data_at), false);
    let m3 = flash::put_data(m2, data_at, blob);
    assert(flush_known(m1) && flush_known(m2) && flush_known(m3));
    lemma_status(m3, at, 2);
}

/// Formatting a sector leaves it known what is flushed.
proof fn lemma_format_known(m: Medium, geo: Geo, at: int)
    requires
        flush_known(m),
        geo.sec >= 0,
    ensures
        flush_known(ts::format(m, geo, at).0),
{
    let m1 = m.erase(at, geo.sec);
    assert(flush_known(m1));
    let m2 = flash::put_status(m1, at, 1, true);
    assert(flush_known(m2));
}

/// Closing a sector leaves it known what is flushed.
proof fn lemma_close_known(m: Medium, s: TsSec, last_time: int)
    requires
        flush_known(m),
    ensures
        flush_known(ts::close_sector(m, s, last_time).0),
{
    if s.end0 == TslStatus::Unused {
        lemma_end_known(m, s.at, 17, 9, 13, last_time, s.empty_idx - 16);
    } else if s.end1 == TslStatus::Unused {
        lemma_end_known(m, s.at, 26, 18, 22, last_time, s.empty_idx - 16);
    }
}

proof fn lemma_end_known(
    m: Medium,
    at: int,
    status_off: int,
    time_off: int,
    idx_off: int,
    time: int,
    idx: int,
)
    requires
        flush_known(m),
    ensures
        flush_known(ts::put_end(m, at, status_off, time_off, idx_off, time, idx).0),
{
    let m1 = flash::put_status(m, at + status_off, 1, false);
    assert(flush_known(m1));
}

/// Making room for a log leaves it known what is flushed.
proof fn lemma_room_known(st: TsState, size: int, time: int)
    requires
        flush_known(st.m),
        st.geo.sec >= 0,
    ensures
        flush_known(ts::make_room(st, size, time).0.m),
{
    lemma_close_known(st.m, st.cur, st.last_time);
    let m1 = ts::close_sector(st.m, st.cur, st.last_time).0;
    lemma_format_known(m1, st.geo, st.cur.at + st.geo.sec);
    lemma_format_known(m1, st.geo, 0);
    assert(flush_known(ts::turn_page(st).0.m));
}

/// Appending to the time-series database: where it succeeds the status that says that the log
/// is written is flushed.
pub proof fn an_appended_log_counts_for_good(st: TsState, blob: Seq<u8>, time: int)
    requires
        flush_known(st.m),
        st.geo.sec >= 0,
        ts::append(st, blob, time).1 is Ok,
    ensures
        ({
            let st1 = ts::append(st, blob, time).0;
            st1.m.bytes[st1.cur.end_idx] == status::status_byte(def::tsl_index_of(TslStatus::Write))
                && flushed_at(st1.m, st1.cur.end_idx)
        }),
{
    lemma_room_known(st, blob.len() as int, time);
    let st1 = ts::make_room(st, blob.len() as int, time).0;
    a_written_log_counts_for_good(st1.m, st1.cur, blob, time);
}

/// Marking a log of the time-series database with a status that is not erased: where it
/// succeeds the status is flushed.
pub proof fn a_marked_log_is_marked_for_good(m: Medium, at: int, t: TslStatus)
    requires
        flush_known(m),
        t != TslStatus::Unused,
        flash::put_status_result(m, at, def::tsl_index_of(t)) is Ok,
    ensures
        ({
            let m1 = flash::put_status(m, at, def::tsl_index_of(t), true);
            m1.bytes[at] == status::status_byte(def::tsl_index_of(t)) && flushed_at(m1, at)
        }),
{
    lemma_status(m, at, def::tsl_index_of(t));
}

} // verus!
