//! The write-ahead log: record layout, LSN assignment and per-transaction
//! chains. The log file itself is written by the caller: `flush` hands over
//! the bytes to append, in LSN order.
//!
//! Record: `[total_size: u32] [lsn: u64] [prev_lsn: u64, 0 = none]
//! [tx_id: u64] [type: u8] [payload_len: u32] [payload]`, where `total_size`
//! counts the bytes after itself.
use vstd::prelude::*;
use std::collections::HashMap;
use crate::bytes::{le_u32, le_u64, push_u32, push_u64};

verus! {

broadcast use vstd::std_specs::hash::group_hash_axioms;

pub type Lsn = u64;

pub type TxId = u64;

#[derive(Debug, Clone, Copy, PartialEq, Eq, Structural)]
pub enum LogRecordType {
    Begin,
    Commit,
    Abort,
    Update,
}

pub open spec fn type_byte(t: LogRecordType) -> u8 {
    match t {
        LogRecordType::Begin => 0,
        LogRecordType::Commit => 1,
        LogRecordType::Abort => 2,
        LogRecordType::Update => 3,
    }
}

#[derive(Debug, Clone, Copy, PartialEq, Eq, Structural)]
pub struct LogRecordHeader {
    pub lsn: Lsn,
    pub prev_lsn: Option<Lsn>,
    pub tx_id: TxId,
    pub typ: LogRecordType,
    pub payload_len: u32,
}

#[derive(Debug)]
pub struct LogRecord {
    pub header: LogRecordHeader,
    pub payload: Vec<u8>,
}

/// The size of a record after its size field.
pub const RECORD_HEADER_SIZE: usize = 29;

/// The bytes of a record: the header fields, then the payload; the payload
/// length is the header's.
pub open spec fn record_bytes(h: LogRecordHeader, payload: Seq<u8>) -> Seq<u8> {
    le_u32((29 + payload.len()) as u32) + le_u64(h.lsn) + le_u64(
        match h.prev_lsn {
            Some(p) => p,
            None => 0,
        },
    ) + le_u64(h.tx_id) + seq![type_byte(h.typ)] + le_u32(h.payload_len) + payload
}

impl LogRecord {
    /// The record's bytes.
    pub fn serialize(&self) -> (r: Vec<u8>)
        requires
            29 + self.payload@.len() <= u32::MAX,
        ensures
            r@ == record_bytes(self.header, self.payload@),
    {
        let total_size = (29 + self.payload.len()) as u32;
        let mut buf: Vec<u8> = Vec::new();
        push_u32(&mut buf, total_size);
        push_u64(&mut buf, self.header.lsn);
        let prev = match self.header.prev_lsn {
            Some(p) => p,
            None => 0,
        };
        push_u64(&mut buf, prev);
        push_u64(&mut buf, self.header.tx_id);
        let t: u8 = match self.header.typ {
            LogRecordType::Begin => 0,
            LogRecordType::Commit => 1,
            LogRecordType::Abort => 2,
            LogRecordType::Update => 3,
        };
        buf.push(t);
        push_u32(&mut buf, self.header.payload_len);
        let ghost before = buf@;
        let mut i: usize = 0;
        while i < self.payload.len()
            invariant
                i <= self.payload@.len(),
                buf@ == before + self.payload@.take(i as int),
            decreases self.payload@.len() - i,
        {
            buf.push(self.payload[i]);
            i = i + 1;
            assert(buf@ =~= before + self.payload@.take(i as int));
        }
        assert(self.payload@.take(i as int) =~= self.payload@);
        assert(buf@ =~= record_bytes(self.header, self.payload@));
        buf
    }
}

/// A record as header and payload bytes.
pub type RecordModel = (LogRecordHeader, Seq<u8>);

/// Why a log operation failed.
#[derive(Debug, Clone, Copy, PartialEq, Eq, Structural)]
pub enum LogError {
    /// The next LSN would not fit in a `u64`.
    LsnExhausted,
    /// The payload does not fit in a record.
    PayloadTooLarge,
}

/// The in-memory part of the log manager.
pub struct LogManager {
    next_lsn: Lsn,
    last_lsn: HashMap<TxId, Lsn>,
    flushed_lsn: Lsn,
    buffer: Vec<LogRecord>,
}

impl LogManager {
    pub closed spec fn next_lsn_spec(&self) -> Lsn {
        self.next_lsn
    }

    pub closed spec fn flushed(&self) -> Lsn {
        self.flushed_lsn
    }

    /// The last LSN of each transaction that has logged.
    pub closed spec fn chains(&self) -> Map<TxId, Lsn> {
        self.last_lsn@
    }

    /// The records not yet handed out for writing, in LSN order.
    pub closed spec fn buffered(&self) -> Seq<RecordModel> {
        self.buffer@.map_values(|r: LogRecord| (r.header, r.payload@))
    }

    /// Buffered LSNs increase, stay below the next LSN, and every record's
    /// payload fits.
    pub closed spec fn wf(&self) -> bool {
        &&& self.next_lsn >= 1
        &&& forall|i: int, j: int|
            0 <= i < j < self.buffer@.len() ==> (#[trigger] self.buffer@[i]).header.lsn < (
            #[trigger] self.buffer@[j]).header.lsn
        &&& forall|i: int|
            0 <= i < self.buffer@.len() ==> (#[trigger] self.buffer@[i]).header.lsn < self.next_lsn
                && 29 + self.buffer@[i].payload@.len() <= u32::MAX
                && self.buffer@[i].header.payload_len == self.buffer@[i].payload@.len()
        &&& forall|t: TxId| #[trigger] self.last_lsn@.contains_key(t) ==> self.last_lsn@[t] < self.next_lsn
    }

    pub fn new() -> (r: LogManager)
        ensures
            r.wf(),
            r.next_lsn_spec() == 1,
            r.flushed() == 0,
            r.chains() == Map::<TxId, Lsn>::empty(),
            r.buffered().len() == 0,
    {
        let r = LogManager { next_lsn: 1, last_lsn: HashMap::new(), flushed_lsn: 0, buffer: Vec::new() };
        assert(r.buffered() =~= Seq::<RecordModel>::empty());
        r
    }

    /// Buffers a record of `tx`, chained to its previous record, and returns
    /// its LSN.
    fn append_record(&mut self, tx_id: TxId, typ: LogRecordType, payload: Vec<u8>) -> (r: Result<Lsn, LogError>)
        requires
            old(self).wf(),
        ensures
            final(self).wf(),
            final(self).flushed() == old(self).flushed(),
            match r {
                Ok(lsn) => {
                    &&& lsn == old(self).next_lsn_spec()
                    &&& final(self).next_lsn_spec() == lsn + 1
                    &&& final(self).chains() == old(self).chains().insert(tx_id, lsn)
                    &&& final(self).buffered() == old(self).buffered().push(
                        (
                            LogRecordHeader {
                                lsn,
                                prev_lsn: if old(self).chains().contains_key(tx_id) {
                                    Some(old(self).chains()[tx_id])
                                } else {
                                    None
                                },
                                tx_id,
                                typ,
                                payload_len: payload@.len() as u32,
                            },
                            payload@,
                        ),
                    )
                },
                Err(_) => {
                    &&& final(self).next_lsn_spec() == old(self).next_lsn_spec()
                    &&& final(self).chains() == old(self).chains()
                    &&& final(self).buffered() == old(self).buffered()
                },
            },
            r is Err <==> (old(self).next_lsn_spec() == u64::MAX || 29 + payload@.len() > u32::MAX),
    {
        if self.next_lsn == u64::MAX {
            return Err(LogError::LsnExhausted);
        }
        if payload.len() > 4294967266 {
            return Err(LogError::PayloadTooLarge);
        }
        let lsn = self.next_lsn;
        let prev = self.last_lsn.insert(tx_id, lsn);
        let header = LogRecordHeader {
            lsn,
            prev_lsn: prev,
            tx_id,
            typ,
            payload_len: payload.len() as u32,
        };
        let ghost before = self.buffered();
        let ghost m = (header, payload@);
        self.buffer.push(LogRecord { header, payload });
        self.next_lsn = lsn + 1;
        assert(self.buffered() =~= before.push(m));
        Ok(lsn)
    }

    pub fn log_begin(&mut self, tx_id: TxId) -> (r: Result<Lsn, LogError>)
        requires
            old(self).wf(),
        ensures
            final(self).wf(),
            r is Err <==> old(self).next_lsn_spec() == u64::MAX,
            r matches Ok(lsn) ==> lsn == old(self).next_lsn_spec() && final(self).next_lsn_spec() == lsn
                + 1 && final(self).flushed() == old(self).flushed() && final(self).buffered().last()
                == (
                LogRecordHeader {
                    lsn,
                    prev_lsn: if old(self).chains().contains_key(tx_id) {
                        Some(old(self).chains()[tx_id])
                    } else {
                        None
                    },
                    tx_id,
                    typ: LogRecordType::Begin,
                    payload_len: 0,
                },
                Seq::<u8>::empty(),
            ) && final(self).chains() == old(self).chains().insert(tx_id, lsn)
                && final(self).buffered().drop_last() == old(self).buffered(),
    {
        let r = self.append_record(tx_id, LogRecordType::Begin, Vec::new());
        proof {
            if r is Ok {
                assert(self.buffered().drop_last() =~= old(self).buffered());
            }
        }
        r
    }

    pub fn log_update(&mut self, tx_id: TxId, payload: Vec<u8>) -> (r: Result<Lsn, LogError>)
        requires
            old(self).wf(),
        ensures
            final(self).wf(),
            r is Err <==> (old(self).next_lsn_spec() == u64::MAX || 29 + payload@.len() > u32::MAX),
            r matches Ok(lsn) ==> lsn == old(self).next_lsn_spec() && final(self).next_lsn_spec() == lsn
                + 1 && final(self).flushed() == old(self).flushed() && final(self).buffered().last()
                == (
                LogRecordHeader {
                    lsn,
                    prev_lsn: if old(self).chains().contains_key(tx_id) {
                        Some(old(self).chains()[tx_id])
                    } else {
                        None
                    },
                    tx_id,
                    typ: LogRecordType::Update,
                    payload_len: payload@.len() as u32,
                },
                payload@,
            ) && final(self).chains() == old(self).chains().insert(tx_id, lsn)
                && final(self).buffered().drop_last() == old(self).buffered(),
    {
        let ghost p = payload@;
        let r = self.append_record(tx_id, LogRecordType::Update, payload);
        proof {
            if r is Ok {
                assert(self.buffered().drop_last() =~= old(self).buffered());
            }
        }
        r
    }

    /// Buffers a commit record and hands out every buffered record up to it,
    /// in LSN order, as the bytes to append and make durable.
    pub fn log_commit(&mut self, tx_id: TxId) -> (r: Result<(Lsn, Vec<u8>), LogError>)
        requires
            old(self).wf(),
        ensures
            final(self).wf(),
            r is Err <==> old(self).next_lsn_spec() == u64::MAX,
            r matches Ok((lsn, bytes)) ==> lsn == old(self).next_lsn_spec() && final(self).next_lsn_spec()
                == lsn + 1 && final(self).flushed() == lsn && final(self).buffered().len() == 0 && bytes@ == records_bytes(
                old(self).buffered().push(
                    (
                        LogRecordHeader {
                            lsn,
                            prev_lsn: if old(self).chains().contains_key(tx_id) {
                                Some(old(self).chains()[tx_id])
                            } else {
                                None
                            },
                            tx_id,
                            typ: LogRecordType::Commit,
                            payload_len: 0,
                        },
                        Seq::<u8>::empty(),
                    ),
                ),
            ),
    {
        let lsn = match self.append_record(tx_id, LogRecordType::Commit, Vec::new()) {
            Ok(l) => l,
            Err(e) => {
                return Err(e);
            },
        };
        let ghost all = self.buffered();
        let bytes = self.flush(lsn);
        proof {
            assert(records_upto(all, lsn) == all) by {
                lemma_all_upto(all, lsn);
            }
        }
        Ok((lsn, bytes))
    }

    /// Buffers an abort record and hands out the records up to it.
    pub fn log_abort(&mut self, tx_id: TxId) -> (r: Result<(Lsn, Vec<u8>), LogError>)
        requires
            old(self).wf(),
        ensures
            final(self).wf(),
            r is Err <==> old(self).next_lsn_spec() == u64::MAX,
            r matches Ok((lsn, bytes)) ==> lsn == old(self).next_lsn_spec() && final(self).next_lsn_spec()
                == lsn + 1 && final(self).flushed() == lsn && final(self).buffered().len() == 0 && bytes@ == records_bytes(
                old(self).buffered().push(
                    (
                        LogRecordHeader {
                            lsn,
                            prev_lsn: if old(self).chains().contains_key(tx_id) {
                                Some(old(self).chains()[tx_id])
                            } else {
                                None
                            },
                            tx_id,
                            typ: LogRecordType::Abort,
                            payload_len: 0,
                        },
                        Seq::<u8>::empty(),
                    ),
                ),
            ),
    {
        let lsn = match self.append_record(tx_id, LogRecordType::Abort, Vec::new()) {
            Ok(l) => l,
            Err(e) => {
                return Err(e);
            },
        };
        let ghost all = self.buffered();
        let bytes = self.flush(lsn);
        proof {
            lemma_all_upto(all, lsn);
        }
        Ok((lsn, bytes))
    }

    /// Takes the buffered records with LSN at most `target`, in order, and
    /// returns their bytes; `target` becomes the flushed LSN.
    pub fn flush(&mut self, target: Lsn) -> (r: Vec<u8>)
        requires
            old(self).wf(),
        ensures
            final(self).wf(),
            final(self).flushed() == target,
            final(self).next_lsn_spec() == old(self).next_lsn_spec(),
            final(self).chains() == old(self).chains(),
            r@ == records_bytes(records_upto(old(self).buffered(), target)),
            final(self).buffered() == old(self).buffered().skip(
                records_upto(old(self).buffered(), target).len() as int,
            ),
    {
        let ghost all = self.buffered();
        let mut out: Vec<u8> = Vec::new();
        let mut n: usize = 0;
        while n < self.buffer.len() && self.buffer[n].header.lsn <= target
            invariant
                self.wf(),
                self.buffered() == all,
                self.next_lsn == old(self).next_lsn,
                self.last_lsn@ == old(self).last_lsn@,
                n <= self.buffer@.len(),
                forall|k: int| 0 <= k < n ==> (#[trigger] all[k]).0.lsn <= target,
                out@ == records_bytes(all.take(n as int)),
            decreases self.buffer@.len() - n,
        {
            let bytes = self.buffer[n].serialize();
            assert(all[n as int] == (self.buffer@[n as int].header, self.buffer@[n as int].payload@));
            let ghost before = out@;
            let mut k: usize = 0;
            while k < bytes.len()
                invariant
                    k <= bytes@.len(),
                    out@ == before + bytes@.take(k as int),
                decreases bytes@.len() - k,
            {
                out.push(bytes[k]);
                k = k + 1;
                assert(out@ =~= before + bytes@.take(k as int));
            }
            assert(bytes@.take(k as int) =~= bytes@);
            assert(all.take(n + 1).drop_last() =~= all.take(n as int));
            n = n + 1;
        }
        proof {
            lemma_records_upto_prefix(all, target, n as int);
        }
        let ghost orig = self.buffer@;
        let mut i: usize = 0;
        while i < n
            invariant
                i <= n <= orig.len(),
                self.buffer@ == orig.skip(i as int),
                self.next_lsn == old(self).next_lsn,
                self.last_lsn@ == old(self).last_lsn@,
                self.next_lsn >= 1,
                forall|t: TxId| #[trigger] self.last_lsn@.contains_key(t) ==> self.last_lsn@[t] < self.next_lsn,
                self.buffered() == all.skip(i as int),
                all == orig.map_values(|r: LogRecord| (r.header, r.payload@)),
                forall|a: int, b: int|
                    0 <= a < b < orig.len() ==> (#[trigger] orig[a]).header.lsn < (#[trigger] orig[b]).header.lsn,
                forall|a: int|
                    0 <= a < orig.len() ==> (#[trigger] orig[a]).header.lsn < self.next_lsn
                        && 29 + orig[a].payload@.len() <= u32::MAX
                        && orig[a].header.payload_len == orig[a].payload@.len(),
            decreases n - i,
        {
            self.buffer.remove(0);
            i = i + 1;
            assert(self.buffer@ =~= orig.skip(i as int));
            assert(self.buffered() =~= all.skip(i as int));
        }
        self.flushed_lsn = target;
        out
    }

    pub fn flushed_lsn(&self) -> (r: Lsn)
        ensures
            r == self.flushed(),
    {
        self.flushed_lsn
    }
}

/// The bytes of records one after the other.
pub open spec fn records_bytes(rs: Seq<RecordModel>) -> Seq<u8>
    decreases rs.len(),
{
    if rs.len() == 0 {
        Seq::empty()
    } else {
        records_bytes(rs.drop_last()) + record_bytes(rs.last().0, rs.last().1)
    }
}

/// The leading records whose LSN is at most `target`.
pub open spec fn upto_len(rs: Seq<RecordModel>, target: Lsn) -> nat
    decreases rs.len(),
{
    if rs.len() == 0 || rs[0].0.lsn > target {
        0
    } else {
        1 + upto_len(rs.skip(1), target)
    }
}

/// The leading records whose LSN is at most `target`.
pub open spec fn records_upto(rs: Seq<RecordModel>, target: Lsn) -> Seq<RecordModel> {
    rs.take(upto_len(rs, target) as int)
}

/// When the first `n` records are at most `target` and the next is not (or
/// there is none), exactly those `n` are taken.
proof fn lemma_records_upto_prefix(rs: Seq<RecordModel>, target: Lsn, n: int)
    requires
        0 <= n <= rs.len(),
        forall|k: int| 0 <= k < n ==> (#[trigger] rs[k]).0.lsn <= target,
        n < rs.len() ==> rs[n].0.lsn > target,
    ensures
        upto_len(rs, target) == n,
        records_upto(rs, target) == rs.take(n),
    decreases n,
{
    if n > 0 {
        let t = rs.skip(1);
        assert forall|k: int| 0 <= k < n - 1 implies (#[trigger] t[k]).0.lsn <= target by {
            assert(t[k] == rs[k + 1]);
        }
        if n - 1 < t.len() {
            assert(t[n - 1] == rs[n]);
        }
        lemma_records_upto_prefix(t, target, n - 1);
    }
}

/// A sequence whose LSNs are all at most `target` is taken whole.
proof fn lemma_all_upto(rs: Seq<RecordModel>, target: Lsn)
    requires
        forall|k: int| 0 <= k < rs.len() ==> (#[trigger] rs[k]).0.lsn <= target,
    ensures
        records_upto(rs, target) == rs,
{
    lemma_records_upto_prefix(rs, target, rs.len() as int);
    assert(rs.take(rs.len() as int) =~= rs);
}

} // verus!
