//! Recovery from the write-ahead log (analysis, redo, undo). The log is
//! read and the pages are written by the caller: these functions read
//! records from the log's bytes and say which page bytes to write.
//!
//! An update's payload is `[page_no: u64] [offset: u32] [before] [after]`,
//! the two images of equal length.
use vstd::prelude::*;
use crate::bytes::{
    le_u32, le_u64, lemma_u32_at_prefix, lemma_u32_round_trip,
    lemma_u64_round_trip, read_u32, read_u64, u32_at,
    u64_at,
};
use crate::log_manager::{
    LogRecordHeader, LogRecordType, Lsn, RecordModel, TxId, record_bytes, records_bytes, type_byte,
};

verus! {

#[derive(Debug)]
pub struct RecoveryLogRecord {
    pub header: LogRecordHeader,
    pub payload: Vec<u8>,
}

pub open spec fn record_model(r: RecoveryLogRecord) -> RecordModel {
    (r.header, r.payload@)
}

#[derive(Debug, Clone, Copy, PartialEq, Eq, Structural)]
pub enum RecoveryError {
    /// A record is too short for its fields, or has an unknown type.
    MalformedRecord,
    /// An update's payload is shorter than its page number and offset.
    MalformedUpdate,
    /// A transaction's chain names an LSN the log does not hold, or loops.
    BrokenChain,
}

pub open spec fn type_of_byte(b: u8) -> Option<LogRecordType> {
    if b == 0 {
        Some(LogRecordType::Begin)
    } else if b == 1 {
        Some(LogRecordType::Commit)
    } else if b == 2 {
        Some(LogRecordType::Abort)
    } else if b == 3 {
        Some(LogRecordType::Update)
    } else {
        None
    }
}

/// The record that the bytes after a size field hold: `lsn`, `prev_lsn`
/// (0 for none), `tx_id`, type byte, payload length, payload. Bytes after
/// the payload are ignored.
pub open spec fn decode_body(b: Seq<u8>) -> Option<RecordModel> {
    if b.len() < 29 || type_of_byte(b[24]) is None {
        None
    } else {
        let n = u32_at(b, 25);
        if b.len() < 29 + n {
            None
        } else {
            let prev = u64_at(b, 8);
            Some(
                (
                    LogRecordHeader {
                        lsn: u64_at(b, 0),
                        prev_lsn: if prev == 0 { None } else { Some(prev) },
                        tx_id: u64_at(b, 16),
                        typ: type_of_byte(b[24]).unwrap(),
                        payload_len: n,
                    },
                    b.subrange(29, 29 + n),
                ),
            )
        }
    }
}

/// The records of a log: each behind its `u32` size. Reading stops at a
/// record cut short by the end of the log.
pub open spec fn log_records(b: Seq<u8>) -> Option<Seq<RecordModel>>
    decreases b.len(),
{
    if b.len() < 4 {
        Some(Seq::empty())
    } else {
        let n = u32_at(b, 0) as int;
        if b.len() - 4 < n {
            Some(Seq::empty())
        } else {
            match decode_body(b.subrange(4, 4 + n)) {
                Some(r) => match log_records(b.skip(4 + n)) {
                    Some(rs) => Some(seq![r] + rs),
                    None => None,
                },
                None => None,
            }
        }
    }
}

/// A record the log manager writes: its payload length is the payload's,
/// the record's size fits its size field, and a previous LSN is never 0
/// (0 stands for none).
pub open spec fn writable(r: RecordModel) -> bool {
    &&& r.0.payload_len == r.1.len()
    &&& 29 + r.1.len() <= u32::MAX
    &&& r.0.prev_lsn != Some(0u64)
}

proof fn lemma_u64_at_sub(b: Seq<u8>, p: int)
    requires
        0 <= p,
        p + 8 <= b.len(),
    ensures
        u64_at(b, p) == u64_at(b.subrange(p, p + 8), 0),
{
}

proof fn lemma_u32_at_sub(b: Seq<u8>, p: int)
    requires
        0 <= p,
        p + 4 <= b.len(),
    ensures
        u32_at(b, p) == u32_at(b.subrange(p, p + 4), 0),
{
}

/// The bytes of a record after its size field.
pub open spec fn record_body(h: LogRecordHeader, pl: Seq<u8>) -> Seq<u8> {
    le_u64(h.lsn) + le_u64(
        match h.prev_lsn {
            Some(p) => p,
            None => 0,
        },
    ) + le_u64(h.tx_id) + seq![type_byte(h.typ)] + le_u32(h.payload_len) + pl
}

#[verifier::rlimit(50)]
proof fn lemma_decode_body(r: RecordModel)
    requires
        writable(r),
    ensures
        decode_body(record_body(r.0, r.1)) == Some(r),
{
    let (h, pl) = r;
    let prev = match h.prev_lsn {
        Some(p) => p,
        None => 0,
    };
    let body = record_body(h, pl);
    assert(body.len() == 29 + pl.len());
    assert(body.subrange(0, 8) =~= le_u64(h.lsn));
    assert(body.subrange(8, 16) =~= le_u64(prev));
    assert(body.subrange(16, 24) =~= le_u64(h.tx_id));
    assert(body.subrange(25, 29) =~= le_u32(h.payload_len));
    assert(body[24] == type_byte(h.typ));
    assert(body.subrange(29, 29 + pl.len() as int) =~= pl);
    lemma_u64_at_sub(body, 0);
    lemma_u64_at_sub(body, 8);
    lemma_u64_at_sub(body, 16);
    lemma_u32_at_sub(body, 25);
    lemma_u64_round_trip(h.lsn);
    lemma_u64_round_trip(prev);
    lemma_u64_round_trip(h.tx_id);
    lemma_u32_round_trip(h.payload_len);
}

proof fn lemma_decode_record(r: RecordModel, rest: Seq<u8>)
    requires
        writable(r),
    ensures
        ({
            let b = record_bytes(r.0, r.1) + rest;
            let n = u32_at(b, 0) as int;
            &&& b.len() >= 4
            &&& n == record_bytes(r.0, r.1).len() - 4
            &&& decode_body(b.subrange(4, 4 + n)) == Some(r)
            &&& b.skip(4 + n) == rest
        }),
{
    let (h, pl) = r;
    let a0 = le_u32((29 + pl.len()) as u32);
    let body = record_body(h, pl);
    let b = record_bytes(h, pl) + rest;
    assert(record_bytes(h, pl) =~= a0 + body);
    assert(b =~= a0 + (body + rest));
    lemma_u32_round_trip((29 + pl.len()) as u32);
    lemma_u32_at_prefix(a0, body + rest, 0);
    let n = u32_at(b, 0) as int;
    assert(n == 29 + pl.len());
    assert(b.subrange(4, 4 + n) =~= body);
    assert(b.skip(4 + n) =~= rest);
    lemma_decode_body(r);
}

proof fn lemma_records_bytes_front(r: RecordModel, rs: Seq<RecordModel>)
    ensures
        records_bytes(seq![r] + rs) == record_bytes(r.0, r.1) + records_bytes(rs),
    decreases rs.len(),
{
    if rs.len() == 0 {
        assert((seq![r] + rs).drop_last() =~= Seq::<RecordModel>::empty());
        assert((seq![r] + rs).last() == r);
        assert(records_bytes(Seq::<RecordModel>::empty()) == Seq::<u8>::empty());
        assert(records_bytes(seq![r] + rs) =~= record_bytes(r.0, r.1) + records_bytes(rs));
    } else {
        assert((seq![r] + rs).drop_last() =~= seq![r] + rs.drop_last());
        assert((seq![r] + rs).last() == rs.last());
        lemma_records_bytes_front(r, rs.drop_last());
        assert(records_bytes(seq![r] + rs) =~= record_bytes(r.0, r.1) + records_bytes(rs));
    }
}

/// What the log manager hands out for writing reads back as the same
/// records, in the same order.
pub proof fn lemma_log_round_trip(rs: Seq<RecordModel>)
    requires
        forall|i: int| 0 <= i < rs.len() ==> writable(#[trigger] rs[i]),
    ensures
        log_records(records_bytes(rs)) == Some(rs),
    decreases rs.len(),
{
    if rs.len() > 0 {
        let tail = rs.skip(1);
        assert(rs =~= seq![rs[0]] + tail);
        lemma_records_bytes_front(rs[0], tail);
        assert forall|i: int| 0 <= i < tail.len() implies writable(#[trigger] tail[i]) by {
            assert(tail[i] == rs[i + 1]);
        }
        lemma_log_round_trip(tail);
        lemma_decode_record(rs[0], records_bytes(tail));
    } else {
        assert(records_bytes(rs).len() == 0);
    }
}

/// Reads one record from the bytes after its size field.
pub fn deserialize_record(buf: &[u8]) -> (r: Result<RecoveryLogRecord, RecoveryError>)
    ensures
        match decode_body(buf@) {
            Some(m) => r matches Ok(rec) && record_model(rec) == m,
            None => r is Err,
        },
{
    if buf.len() < 29 {
        return Err(RecoveryError::MalformedRecord);
    }
    let lsn = read_u64(buf, 0);
    let prev = read_u64(buf, 8);
    let tx_id = read_u64(buf, 16);
    let typ = if buf[24] == 0 {
        LogRecordType::Begin
    } else if buf[24] == 1 {
        LogRecordType::Commit
    } else if buf[24] == 2 {
        LogRecordType::Abort
    } else if buf[24] == 3 {
        LogRecordType::Update
    } else {
        return Err(RecoveryError::MalformedRecord);
    };
    let n = read_u32(buf, 25);
    if buf.len() - 29 < n as usize {
        return Err(RecoveryError::MalformedRecord);
    }
    let mut payload: Vec<u8> = Vec::new();
    let mut i: usize = 29;
    let end = 29 + n as usize;
    while i < end
        invariant
            29 <= i <= end <= buf@.len(),
            payload@ == buf@.subrange(29, i as int),
        decreases end - i,
    {
        payload.push(buf[i]);
        i = i + 1;
        assert(payload@ =~= buf@.subrange(29, i as int));
    }
    Ok(
        RecoveryLogRecord {
            header: LogRecordHeader {
                lsn,
                prev_lsn: if prev == 0 {
                    None
                } else {
                    Some(prev)
                },
                tx_id,
                typ,
                payload_len: n,
            },
            payload,
        },
    )
}

/// Reads every record of a log, stopping at a record cut short by its end.
pub fn parse_log(bytes: &[u8]) -> (r: Result<Vec<RecoveryLogRecord>, RecoveryError>)
    ensures
        match log_records(bytes@) {
            Some(rs) => r matches Ok(v) && v@.map_values(|x: RecoveryLogRecord| record_model(x)) == rs,
            None => r is Err,
        },
{
    let mut out: Vec<RecoveryLogRecord> = Vec::new();
    let mut pos: usize = 0;
    let len = bytes.len();
    proof {
        assert(bytes@.skip(0) =~= bytes@);
        match log_records(bytes@) {
            Some(rs) => assert(out@.map_values(|x: RecoveryLogRecord| record_model(x)) + rs =~= rs),
            None => {},
        }
    }
    loop
        invariant
            pos <= len == bytes@.len(),
            log_records(bytes@) == match log_records(bytes@.skip(pos as int)) {
                Some(rs) => Some(out@.map_values(|x: RecoveryLogRecord| record_model(x)) + rs),
                None => None::<Seq<RecordModel>>,
            },
        decreases len - pos,
    {
        let ghost b = bytes@.skip(pos as int);
        let ghost acc = out@.map_values(|x: RecoveryLogRecord| record_model(x));
        if len - pos < 4 {
            assert(acc + Seq::<RecordModel>::empty() =~= acc);
            return Ok(out);
        }
        let n = read_u32(bytes, pos) as usize;
        assert(u32_at(b, 0) == u32_at(bytes@, pos as int));
        if len - pos - 4 < n {
            assert(acc + Seq::<RecordModel>::empty() =~= acc);
            return Ok(out);
        }
        let mut body: Vec<u8> = Vec::new();
        let mut i: usize = pos + 4;
        while i < pos + 4 + n
            invariant
                pos + 4 <= i <= pos + 4 + n <= len == bytes@.len(),
                body@ == bytes@.subrange(pos + 4, i as int),
            decreases pos + 4 + n - i,
        {
            body.push(bytes[i]);
            i = i + 1;
            assert(body@ =~= bytes@.subrange(pos + 4, i as int));
        }
        assert(body@ =~= b.subrange(4, 4 + n as int));
        let rec = match deserialize_record(body.as_slice()) {
            Ok(rec) => rec,
            Err(e) => {
                return Err(e);
            },
        };
        let ghost m = record_model(rec);
        out.push(rec);
        proof {
            assert(out@.map_values(|x: RecoveryLogRecord| record_model(x)) =~= acc.push(m));
            assert(b.skip(4 + n as int) =~= bytes@.skip(pos + 4 + n));
            assert forall|rs: Seq<RecordModel>| acc + (seq![m] + rs) =~= acc.push(m) + rs by {}
        }
        pos = pos + 4 + n;
    }
}

/// A write of bytes into a page at an offset.
#[derive(Debug)]
pub struct PageWrite {
    pub page_no: u64,
    pub offset: u32,
    pub bytes: Vec<u8>,
}

pub type PageWriteModel = (u64, u32, Seq<u8>);

pub open spec fn write_model(w: PageWrite) -> PageWriteModel {
    (w.page_no, w.offset, w.bytes@)
}

/// An update's page, offset, before image and after image.
pub open spec fn update_parts(p: Seq<u8>) -> Option<(u64, u32, Seq<u8>, Seq<u8>)> {
    if p.len() < 12 {
        None
    } else {
        let half = (p.len() - 12) / 2;
        Some((u64_at(p, 0), u32_at(p, 8), p.subrange(12, 12 + half), p.subrange(12 + half, p.len() as int)))
    }
}

/// Splits an update's payload.
fn split_update(p: &Vec<u8>) -> (r: Result<(u64, u32, Vec<u8>, Vec<u8>), RecoveryError>)
    ensures
        match update_parts(p@) {
            Some((pg, off, before, after)) => r matches Ok(x) && x.0 == pg && x.1 == off && x.2@
                == before && x.3@ == after,
            None => r is Err,
        },
{
    if p.len() < 12 {
        return Err(RecoveryError::MalformedUpdate);
    }
    let page_no = read_u64(p.as_slice(), 0);
    let offset = read_u32(p.as_slice(), 8);
    let half = (p.len() - 12) / 2;
    let mut before: Vec<u8> = Vec::new();
    let mut after: Vec<u8> = Vec::new();
    let mut i: usize = 12;
    while i < p.len()
        invariant
            12 <= i <= p@.len(),
            half == (p@.len() - 12) / 2,
            before@ == p@.subrange(12, if i < 12 + half { i as int } else { 12 + half }),
            after@ == if i < 12 + half { Seq::<u8>::empty() } else { p@.subrange(12 + half, i as int) },
        decreases p@.len() - i,
    {
        if i < 12 + half {
            before.push(p[i]);
        } else {
            after.push(p[i]);
        }
        i = i + 1;
        assert(before@ =~= p@.subrange(12, if i < 12 + half { i as int } else { 12 + half }));
        assert(after@ =~= if i < 12 + half { Seq::<u8>::empty() } else { p@.subrange(12 + half, i as int) });
    }
    Ok((page_no, offset, before, after))
}

/// The redo writes: the after image of every update, in log order.
pub open spec fn redo_model(rs: Seq<RecordModel>) -> Option<Seq<PageWriteModel>>
    decreases rs.len(),
{
    if rs.len() == 0 {
        Some(Seq::empty())
    } else {
        match redo_model(rs.drop_last()) {
            Some(ws) => if rs.last().0.typ == LogRecordType::Update {
                match update_parts(rs.last().1) {
                    Some((pg, off, before, after)) => Some(ws.push((pg, off, after))),
                    None => None,
                }
            } else {
                Some(ws)
            },
            None => None,
        }
    }
}

/// The redo pass: the after image of every update, in log order. Every
/// updated page is in the dirty-page set, so every update is redone.
pub fn redo_writes(records: &Vec<RecoveryLogRecord>) -> (r: Result<Vec<PageWrite>, RecoveryError>)
    ensures
        match redo_model(records@.map_values(|x: RecoveryLogRecord| record_model(x))) {
            Some(ws) => r matches Ok(v) && v@.map_values(|w: PageWrite| write_model(w)) == ws,
            None => r is Err,
        },
{
    let ghost rs = records@.map_values(|x: RecoveryLogRecord| record_model(x));
    let mut out: Vec<PageWrite> = Vec::new();
    let mut i: usize = 0;
    while i < records.len()
        invariant
            i <= records@.len(),
            rs == records@.map_values(|x: RecoveryLogRecord| record_model(x)),
            redo_model(rs.take(i as int)) == Some(out@.map_values(|w: PageWrite| write_model(w))),
        decreases records@.len() - i,
    {
        assert(rs.take(i + 1).drop_last() =~= rs.take(i as int));
        assert(rs.take(i + 1).last() == record_model(records@[i as int]));
        let rec = &records[i];
        if rec.header.typ == LogRecordType::Update {
            let ghost before = out@.map_values(|w: PageWrite| write_model(w));
            match split_update(&rec.payload) {
                Ok((page_no, offset, _before_image, after)) => {
                    let w = PageWrite { page_no, offset, bytes: after };
                    let ghost wm = write_model(w);
                    out.push(w);
                    assert(out@.map_values(|w: PageWrite| write_model(w)) =~= before.push(wm));
                },
                Err(e) => {
                    proof {
                        lemma_redo_prefix_fails(rs, i as int + 1);
                    }
                    return Err(e);
                },
            }
        }
        i = i + 1;
    }
    assert(rs.take(i as int) =~= rs);
    Ok(out)
}

proof fn lemma_redo_prefix_fails(rs: Seq<RecordModel>, n: int)
    requires
        0 < n <= rs.len(),
        redo_model(rs.take(n)) is None,
    ensures
        redo_model(rs) is None,
    decreases rs.len() - n,
{
    if n < rs.len() {
        assert(rs.take(n + 1).drop_last() =~= rs.take(n));
        lemma_redo_prefix_fails(rs, n + 1);
    } else {
        assert(rs.take(n) =~= rs);
    }
}

/// The status a transaction ends the log in: that of its last begin,
/// commit or abort record.
pub open spec fn final_status(rs: Seq<RecordModel>, tx: TxId) -> Option<LogRecordType>
    decreases rs.len(),
{
    if rs.len() == 0 {
        None
    } else if rs.last().0.tx_id == tx && rs.last().0.typ != LogRecordType::Update {
        Some(rs.last().0.typ)
    } else {
        final_status(rs.drop_last(), tx)
    }
}

/// The LSN of a transaction's last record.
pub open spec fn last_lsn(rs: Seq<RecordModel>, tx: TxId) -> Option<Lsn>
    decreases rs.len(),
{
    if rs.len() == 0 {
        None
    } else if rs.last().0.tx_id == tx {
        Some(rs.last().0.lsn)
    } else {
        last_lsn(rs.drop_last(), tx)
    }
}

fn final_status_of(records: &Vec<RecoveryLogRecord>, tx: TxId) -> (r: Option<LogRecordType>)
    ensures
        r == final_status(records@.map_values(|x: RecoveryLogRecord| record_model(x)), tx),
{
    let ghost rs = records@.map_values(|x: RecoveryLogRecord| record_model(x));
    let mut i: usize = records.len();
    assert(rs.take(i as int) =~= rs);
    while i > 0
        invariant
            i <= records@.len(),
            rs == records@.map_values(|x: RecoveryLogRecord| record_model(x)),
            final_status(rs, tx) == final_status(rs.take(i as int), tx),
        decreases i,
    {
        assert(rs.take(i as int).drop_last() =~= rs.take(i - 1));
        assert(rs.take(i as int).last() == record_model(records@[i - 1]));
        if records[i - 1].header.tx_id == tx && records[i - 1].header.typ != LogRecordType::Update {
            return Some(records[i - 1].header.typ);
        }
        i = i - 1;
    }
    assert(rs.take(0) =~= Seq::<RecordModel>::empty());
    None
}

fn last_lsn_of(records: &Vec<RecoveryLogRecord>, tx: TxId) -> (r: Option<Lsn>)
    ensures
        r == last_lsn(records@.map_values(|x: RecoveryLogRecord| record_model(x)), tx),
{
    let ghost rs = records@.map_values(|x: RecoveryLogRecord| record_model(x));
    let mut i: usize = records.len();
    assert(rs.take(i as int) =~= rs);
    while i > 0
        invariant
            i <= records@.len(),
            rs == records@.map_values(|x: RecoveryLogRecord| record_model(x)),
            last_lsn(rs, tx) == last_lsn(rs.take(i as int), tx),
        decreases i,
    {
        assert(rs.take(i as int).drop_last() =~= rs.take(i - 1));
        assert(rs.take(i as int).last() == record_model(records@[i - 1]));
        if records[i - 1].header.tx_id == tx {
            return Some(records[i - 1].header.lsn);
        }
        i = i - 1;
    }
    assert(rs.take(0) =~= Seq::<RecordModel>::empty());
    None
}

/// The analysis pass: the transactions still active at the end of the log
/// (their last begin, commit or abort record is a begin), each once, in the
/// order of their first record.
pub fn active_transactions(records: &Vec<RecoveryLogRecord>) -> (r: Vec<TxId>)
    ensures
        forall|tx: TxId|
            r@.contains(tx) <==> final_status(
                records@.map_values(|x: RecoveryLogRecord| record_model(x)),
                tx,
            ) == Some(LogRecordType::Begin),
        forall|i: int, j: int| 0 <= i < j < r@.len() ==> r@[i] != r@[j],
{
    let ghost rs = records@.map_values(|x: RecoveryLogRecord| record_model(x));
    let mut out: Vec<TxId> = Vec::new();
    let mut i: usize = 0;
    while i < records.len()
        invariant
            i <= records@.len(),
            rs == records@.map_values(|x: RecoveryLogRecord| record_model(x)),
            forall|a: int, b: int| 0 <= a < b < out@.len() ==> out@[a] != out@[b],
            forall|tx: TxId|
                out@.contains(tx) <==> (final_status(rs, tx) == Some(LogRecordType::Begin)
                    && exists|k: int| 0 <= k < i && #[trigger] rs[k].0.tx_id == tx),
        decreases records@.len() - i,
    {
        let tx = records[i].header.tx_id;
        assert(rs[i as int].0.tx_id == tx);
        let mut seen = false;
        let mut k: usize = 0;
        while k < out.len()
            invariant
                k <= out@.len(),
                seen == exists|j: int| 0 <= j < k && out@[j] == tx,
            decreases out@.len() - k,
        {
            if out[k] == tx {
                seen = true;
            }
            k = k + 1;
        }
        let ghost old_out = out@;
        assert(seen <==> old_out.contains(tx));
        let begun = final_status_of(records, tx) == Some(LogRecordType::Begin);
        if !seen && begun {
            out.push(tx);
        }
        proof {
            assert(out@ == if !seen && begun { old_out.push(tx) } else { old_out });
            assert forall|t: TxId| #[trigger] out@.contains(t) <==> old_out.contains(t) || (t == tx && !seen
                && begun) by {
                if out@.contains(t) && !old_out.contains(t) {
                    let j = choose|j: int| 0 <= j < out@.len() && out@[j] == t;
                    if j < old_out.len() {
                        assert(old_out[j] == t);
                    }
                }
                if old_out.contains(t) {
                    let j = choose|j: int| 0 <= j < old_out.len() && old_out[j] == t;
                    assert(out@[j] == t);
                }
                if t == tx && !seen && begun {
                    assert(out@[out@.len() - 1] == t);
                }
            }
            assert forall|t: TxId|
                out@.contains(t) <==> (final_status(rs, t) == Some(LogRecordType::Begin)
                    && exists|k: int| 0 <= k < i + 1 && #[trigger] rs[k].0.tx_id == t) by {
                if exists|k: int| 0 <= k < i + 1 && #[trigger] rs[k].0.tx_id == t {
                    if t != tx {
                        let k = choose|k: int| 0 <= k < i + 1 && #[trigger] rs[k].0.tx_id == t;
                        assert(k < i);
                    }
                }
                if t != tx && (exists|k: int| 0 <= k < i && #[trigger] rs[k].0.tx_id == t) {
                    let k = choose|k: int| 0 <= k < i && #[trigger] rs[k].0.tx_id == t;
                    assert(0 <= k < i + 1);
                }
                if t == tx {
                    assert(rs[i as int].0.tx_id == t);
                }
            }
            assert forall|a: int, b: int| 0 <= a < b < out@.len() implies out@[a] != out@[b] by {
                if b == out@.len() - 1 && !seen && begun {
                    assert(old_out[a] == out@[a]);
                    assert(!old_out.contains(tx));
                }
            }
        }
        i = i + 1;
    }
    proof {
        assert forall|tx: TxId| final_status(rs, tx) == Some(LogRecordType::Begin) implies exists|k: int|
            0 <= k < rs.len() && #[trigger] rs[k].0.tx_id == tx by {
            lemma_status_has_record(rs, tx);
        }
    }
    out
}

proof fn lemma_status_has_record(rs: Seq<RecordModel>, tx: TxId)
    requires
        final_status(rs, tx) is Some,
    ensures
        exists|k: int| 0 <= k < rs.len() && #[trigger] rs[k].0.tx_id == tx,
    decreases rs.len(),
{
    if rs.last().0.tx_id == tx && rs.last().0.typ != LogRecordType::Update {
        assert(rs[rs.len() - 1].0.tx_id == tx);
    } else {
        lemma_status_has_record(rs.drop_last(), tx);
        let k = choose|k: int| 0 <= k < rs.len() - 1 && #[trigger] rs.drop_last()[k].0.tx_id == tx;
        assert(rs[k] == rs.drop_last()[k]);
    }
}

/// The first record with LSN `lsn`.
pub open spec fn record_at(rs: Seq<RecordModel>, lsn: Lsn) -> Option<RecordModel>
    decreases rs.len(),
{
    if rs.len() == 0 {
        None
    } else if rs[0].0.lsn == lsn {
        Some(rs[0])
    } else {
        record_at(rs.skip(1), lsn)
    }
}

/// The undo writes of a chain from `lsn` backwards: the before image of
/// each update, newest first, following at most `fuel` records.
pub open spec fn undo_model(rs: Seq<RecordModel>, lsn: Lsn, fuel: nat) -> Option<Seq<PageWriteModel>>
    decreases fuel,
{
    if fuel == 0 {
        None
    } else {
        match record_at(rs, lsn) {
            None => None,
            Some(rec) => {
                let here: Option<Seq<PageWriteModel>> = if rec.0.typ == LogRecordType::Update {
                    match update_parts(rec.1) {
                        Some((pg, off, before, after)) => Some(seq![(pg, off, before)]),
                        None => None,
                    }
                } else {
                    Some(Seq::empty())
                };
                match here {
                    None => None,
                    Some(h) => match rec.0.prev_lsn {
                        None => Some(h),
                        Some(p) => match undo_model(rs, p, (fuel - 1) as nat) {
                            Some(rest) => Some(h + rest),
                            None => None,
                        },
                    },
                }
            },
        }
    }
}

fn find_record(records: &Vec<RecoveryLogRecord>, lsn: Lsn) -> (r: Option<usize>)
    ensures
        match record_at(records@.map_values(|x: RecoveryLogRecord| record_model(x)), lsn) {
            Some(m) => r matches Some(i) && i < records@.len() && record_model(records@[i as int]) == m,
            None => r is None,
        },
{
    let ghost rs = records@.map_values(|x: RecoveryLogRecord| record_model(x));
    let mut i: usize = 0;
    assert(rs.skip(0) =~= rs);
    while i < records.len()
        invariant
            i <= records@.len(),
            rs == records@.map_values(|x: RecoveryLogRecord| record_model(x)),
            record_at(rs, lsn) == record_at(rs.skip(i as int), lsn),
        decreases records@.len() - i,
    {
        assert(rs.skip(i as int)[0] == record_model(records@[i as int]));
        if records[i].header.lsn == lsn {
            return Some(i);
        }
        assert(rs.skip(i as int).skip(1) =~= rs.skip(i + 1));
        i = i + 1;
    }
    None
}

/// The undo pass for one transaction still active: walks its chain back
/// from its last LSN and returns the before image of each update, newest
/// first. A chain longer than the log is broken.
pub fn undo_writes(records: &Vec<RecoveryLogRecord>, tx: TxId) -> (r: Result<Vec<PageWrite>, RecoveryError>)
    ensures
        ({
            let rs = records@.map_values(|x: RecoveryLogRecord| record_model(x));
            match last_lsn(rs, tx) {
                None => r matches Ok(v) && v@.len() == 0,
                Some(l) => match undo_model(rs, l, rs.len()) {
                    Some(ws) => r matches Ok(v) && v@.map_values(|w: PageWrite| write_model(w)) == ws,
                    None => r is Err,
                },
            }
        }),
{
    let ghost rs = records@.map_values(|x: RecoveryLogRecord| record_model(x));
    let mut lsn = match last_lsn_of(records, tx) {
        Some(l) => l,
        None => {
            return Ok(Vec::new());
        },
    };
    let ghost start = lsn;
    let mut out: Vec<PageWrite> = Vec::new();
    let mut fuel: usize = records.len();
    loop
        invariant
            rs == records@.map_values(|x: RecoveryLogRecord| record_model(x)),
            last_lsn(rs, tx) == Some(start),
            fuel <= records@.len(),
            undo_model(rs, start, rs.len()) == match undo_model(rs, lsn, fuel as nat) {
                Some(rest) => Some(out@.map_values(|w: PageWrite| write_model(w)) + rest),
                None => None::<Seq<PageWriteModel>>,
            },
        decreases fuel,
    {
        let ghost acc = out@.map_values(|w: PageWrite| write_model(w));
        if fuel == 0 {
            return Err(RecoveryError::BrokenChain);
        }
        let i = match find_record(records, lsn) {
            Some(i) => i,
            None => {
                return Err(RecoveryError::BrokenChain);
            },
        };
        let rec = &records[i];
        if rec.header.typ == LogRecordType::Update {
            match split_update(&rec.payload) {
                Ok((page_no, offset, before, _after)) => {
                    let w = PageWrite { page_no, offset, bytes: before };
                    let ghost wm = write_model(w);
                    out.push(w);
                    proof {
                        assert(out@.map_values(|w: PageWrite| write_model(w)) =~= acc.push(wm));
                        assert forall|rest: Seq<PageWriteModel>| acc + (seq![wm] + rest) =~= acc.push(wm)
                            + rest by {}
                        assert(acc + seq![wm] =~= acc.push(wm));
                    }
                },
                Err(e) => {
                    return Err(e);
                },
            }
        } else {
            proof {
                assert forall|rest: Seq<PageWriteModel>| Seq::<PageWriteModel>::empty() + rest =~= rest by {}
                assert(acc + Seq::<PageWriteModel>::empty() =~= acc);
            }
        }
        match rec.header.prev_lsn {
            Some(p) => {
                lsn = p;
                fuel = fuel - 1;
            },
            None => {
                return Ok(out);
            },
        }
    }
}

} // verus!
