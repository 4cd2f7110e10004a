//! The slotted data page.
//!
//! Header: `page_id: u64`, `slot_count: u16`, `free_space_off: u16`. The slot
//! directory of `(offset: u16, length: u16)` entries grows forward from the
//! header; tuple bytes grow backward from the end of the page. A slot whose
//! length is 0 is a tombstone.
use vstd::prelude::*;
use crate::bytes::{le_u16, le_u64, push_u16, push_u64, read_u16, read_u64, u16_at, u64_at, write_u16};

verus! {

/// A record id: page number and slot number.
pub type RID = (u64, u16);

/// Why a page operation failed.
#[derive(Debug, Clone, Copy, PartialEq, Eq, Structural)]
pub enum PageError {
    /// The tuple and its slot entry do not fit in the free space.
    NotEnoughSpace,
    /// The slot number is not below the slot count.
    InvalidSlot,
}

pub const PAGE_HEADER_SIZE: usize = 12;

pub const SLOT_ENTRY_SIZE: usize = 4;

pub open spec fn page_id_of(b: Seq<u8>) -> u64 {
    u64_at(b, 0)
}

pub open spec fn slot_count_of(b: Seq<u8>) -> u16 {
    u16_at(b, 8)
}

pub open spec fn free_off_of(b: Seq<u8>) -> u16 {
    u16_at(b, 10)
}

pub open spec fn slot_off(b: Seq<u8>, i: int) -> u16 {
    u16_at(b, 12 + 4 * i)
}

pub open spec fn slot_len(b: Seq<u8>, i: int) -> u16 {
    u16_at(b, 12 + 4 * i + 2)
}

/// The bytes slot `i` refers to.
pub open spec fn tuple_of(b: Seq<u8>, i: int) -> Seq<u8> {
    b.subrange(slot_off(b, i) as int, slot_off(b, i) + slot_len(b, i))
}

/// A well-formed page of `page_size` bytes: the slot directory ends at or
/// before the free-space offset, which is within the page, and every slot
/// refers to bytes between the free-space offset and the end of the page.
pub open spec fn page_wf(b: Seq<u8>, page_size: nat) -> bool {
    &&& b.len() == page_size
    &&& page_size <= u16::MAX
    &&& 12 + 4 * slot_count_of(b) <= free_off_of(b) <= page_size
    &&& forall|i: int|
        0 <= i < slot_count_of(b) ==> free_off_of(b) <= #[trigger] slot_off(b, i) && slot_off(b, i)
            + slot_len(b, i) <= page_size
}

/// Free bytes between the slot directory and the tuples.
pub open spec fn free_space_of(b: Seq<u8>) -> int {
    free_off_of(b) - (12 + 4 * slot_count_of(b))
}

/// The bytes of `b` with `src` written at `p`.
pub open spec fn overwrite(b: Seq<u8>, p: int, src: Seq<u8>) -> Seq<u8> {
    Seq::new(b.len(), |k: int| if p <= k < p + src.len() { src[k - p] } else { b[k] })
}

/// The page after inserting tuple `t`: `t` is written just below the
/// free-space offset, a new slot entry refers to it, and the header counts
/// the new slot and the new offset.
pub open spec fn insert_image(b: Seq<u8>, t: Seq<u8>) -> Seq<u8> {
    let n = slot_count_of(b) as int;
    let new_off = (free_off_of(b) - t.len()) as u16;
    let e = 12 + 4 * n;
    overwrite(
        overwrite(
            overwrite(
                overwrite(overwrite(b, new_off as int, t), e + 2, le_u16(t.len() as u16)),
                e,
                le_u16(new_off),
            ),
            10,
            le_u16(new_off),
        ),
        8,
        le_u16((n + 1) as u16),
    )
}

/// The live slots of the first `n` slots, in slot order, each with its bytes.
pub open spec fn live_slots(b: Seq<u8>, n: nat) -> Seq<(u16, Seq<u8>)>
    decreases n,
{
    if n == 0 {
        Seq::empty()
    } else {
        let i = (n - 1) as int;
        let rest = live_slots(b, (n - 1) as nat);
        if slot_len(b, i) != 0 {
            rest.push((i as u16, tuple_of(b, i)))
        } else {
            rest
        }
    }
}

/// The page after `ts` are inserted one after the other.
pub open spec fn insert_all(b: Seq<u8>, ts: Seq<Seq<u8>>) -> Seq<u8>
    decreases ts.len(),
{
    if ts.len() == 0 {
        b
    } else {
        insert_image(insert_all(b, ts.drop_last()), ts.last())
    }
}

/// The bytes that `ts` take with one slot entry each.
pub open spec fn space_needed(ts: Seq<Seq<u8>>) -> int
    decreases ts.len(),
{
    if ts.len() == 0 {
        0
    } else {
        space_needed(ts.drop_last()) + ts.last().len() + 4
    }
}

proof fn lemma_u16_at_overwrite(b: Seq<u8>, p: int, src: Seq<u8>, q: int)
    requires
        0 <= q,
        q + 2 <= b.len(),
        q + 2 <= p || p + src.len() <= q,
    ensures
        u16_at(overwrite(b, p, src), q) == u16_at(b, q),
{
    let o = overwrite(b, p, src);
    assert(o[q] == b[q]);
    assert(o[q + 1] == b[q + 1]);
}

proof fn lemma_u16_at_written(b: Seq<u8>, p: int, x: u16)
    requires
        0 <= p,
        p + 2 <= b.len(),
    ensures
        u16_at(overwrite(b, p, le_u16(x)), p) == x,
{
    let o = overwrite(b, p, le_u16(x));
    assert(o[p] == le_u16(x)[0]);
    assert(o[p + 1] == le_u16(x)[1]);
    crate::bytes::lemma_u16_round_trip(x);
}

/// What one insertion does, read through the header and the directory.
proof fn lemma_insert_image(b: Seq<u8>, t: Seq<u8>, page_size: nat)
    requires
        page_wf(b, page_size),
        t.len() + 4 <= free_space_of(b),
    ensures
        ({
            let b2 = insert_image(b, t);
            let n = slot_count_of(b) as int;
            &&& page_wf(b2, page_size)
            &&& slot_count_of(b2) == n + 1
            &&& free_off_of(b2) == free_off_of(b) - t.len()
            &&& free_space_of(b2) == free_space_of(b) - t.len() - 4
            &&& page_id_of(b2) == page_id_of(b)
            &&& slot_len(b2, n) == t.len()
            &&& tuple_of(b2, n) == t
            &&& forall|i: int|
                0 <= i < n ==> #[trigger] slot_off(b2, i) == slot_off(b, i) && slot_len(b2, i)
                    == slot_len(b, i) && tuple_of(b2, i) == tuple_of(b, i)
        }),
{
    let n = slot_count_of(b) as int;
    let f = free_off_of(b) as int;
    let new_off = (f - t.len()) as u16;
    let e = 12 + 4 * n;
    let o1 = overwrite(b, new_off as int, t);
    let o2 = overwrite(o1, e + 2, le_u16(t.len() as u16));
    let o3 = overwrite(o2, e, le_u16(new_off));
    let o4 = overwrite(o3, 10, le_u16(new_off));
    let b2 = overwrite(o4, 8, le_u16((n + 1) as u16));
    assert(b2 == insert_image(b, t));
    // header
    lemma_u16_at_written(o4, 8, (n + 1) as u16);
    lemma_u16_at_overwrite(o4, 8, le_u16((n + 1) as u16), 10);
    lemma_u16_at_written(o3, 10, new_off);
    assert(page_id_of(b2) == page_id_of(b)) by {
        assert forall|k: int| 0 <= k < 8 implies b2[k] == b[k] by {}
    }
    // the new entry
    lemma_u16_at_overwrite(o4, 8, le_u16((n + 1) as u16), e);
    lemma_u16_at_overwrite(o3, 10, le_u16(new_off), e);
    lemma_u16_at_written(o2, e, new_off);
    lemma_u16_at_overwrite(o4, 8, le_u16((n + 1) as u16), e + 2);
    lemma_u16_at_overwrite(o3, 10, le_u16(new_off), e + 2);
    lemma_u16_at_overwrite(o2, e, le_u16(new_off), e + 2);
    lemma_u16_at_written(o1, e + 2, t.len() as u16);
    assert(slot_off(b2, n) == new_off);
    assert(slot_len(b2, n) == t.len());
    assert(tuple_of(b2, n) =~= t);
    // the old entries
    assert forall|i: int| 0 <= i < n implies #[trigger] slot_off(b2, i) == slot_off(b, i)
        && slot_len(b2, i) == slot_len(b, i) && tuple_of(b2, i) == tuple_of(b, i) by {
        let q = 12 + 4 * i;
        lemma_u16_at_overwrite(o4, 8, le_u16((n + 1) as u16), q);
        lemma_u16_at_overwrite(o3, 10, le_u16(new_off), q);
        lemma_u16_at_overwrite(o2, e, le_u16(new_off), q);
        lemma_u16_at_overwrite(o1, e + 2, le_u16(t.len() as u16), q);
        lemma_u16_at_overwrite(b, new_off as int, t, q);
        lemma_u16_at_overwrite(o4, 8, le_u16((n + 1) as u16), q + 2);
        lemma_u16_at_overwrite(o3, 10, le_u16(new_off), q + 2);
        lemma_u16_at_overwrite(o2, e, le_u16(new_off), q + 2);
        lemma_u16_at_overwrite(o1, e + 2, le_u16(t.len() as u16), q + 2);
        lemma_u16_at_overwrite(b, new_off as int, t, q + 2);
        assert(tuple_of(b2, i) =~= tuple_of(b, i));
    }
}

/// A fresh page takes any tuples whose bytes and slot entries fit in its
/// free space: afterwards each is found under its own slot, in the order of
/// insertion, the slots are all live and listed in slot order, and the free
/// space never grew.
pub proof fn lemma_inserts_retrievable(b: Seq<u8>, ts: Seq<Seq<u8>>, page_size: nat)
    requires
        page_wf(b, page_size),
        slot_count_of(b) == 0,
        space_needed(ts) <= free_space_of(b),
        forall|i: int| 0 <= i < ts.len() ==> (#[trigger] ts[i]).len() > 0,
    ensures
        page_wf(insert_all(b, ts), page_size),
        slot_count_of(insert_all(b, ts)) == ts.len(),
        free_space_of(insert_all(b, ts)) == free_space_of(b) - space_needed(ts),
        forall|i: int| 0 <= i < ts.len() ==> #[trigger] tuple_of(insert_all(b, ts), i) == ts[i],
        live_slots(insert_all(b, ts), ts.len()) == Seq::new(
            ts.len(),
            |i: int| (i as u16, ts[i]),
        ),
        forall|j: int|
            0 < j <= ts.len() ==> #[trigger] free_space_of(insert_all(b, ts.take(j))) <= free_space_of(
                insert_all(b, ts.take(j - 1)),
            ),
    decreases ts.len(),
{
    if ts.len() > 0 {
        let init = ts.drop_last();
        let prev = insert_all(b, init);
        assert forall|i: int| 0 <= i < init.len() implies (#[trigger] init[i]).len() > 0 by {
            assert(init[i] == ts[i]);
        }
        lemma_inserts_retrievable(b, init, page_size);
        lemma_insert_image(prev, ts.last(), page_size);
        let cur = insert_all(b, ts);
        assert forall|i: int| 0 <= i < ts.len() implies #[trigger] tuple_of(cur, i) == ts[i] by {
            if i < init.len() {
                assert(tuple_of(prev, i) == init[i]);
            }
        }
        lemma_live_slots_same(prev, cur, init.len());
        assert(live_slots(cur, ts.len()) =~= Seq::new(ts.len(), |i: int| (i as u16, ts[i])));
        assert forall|j: int|
            0 < j <= ts.len() implies #[trigger] free_space_of(insert_all(b, ts.take(j))) <= free_space_of(
            insert_all(b, ts.take(j - 1)),
        ) by {
            if j == ts.len() {
                assert(ts.take(j) =~= ts);
                assert(ts.take(j - 1) =~= init);
            } else {
                assert(ts.take(j) =~= init.take(j));
                assert(ts.take(j - 1) =~= init.take(j - 1));
            }
        }
    }
}

/// Slots that two pages hold alike are listed alike.
proof fn lemma_live_slots_same(b1: Seq<u8>, b2: Seq<u8>, n: nat)
    requires
        forall|i: int|
            0 <= i < n ==> #[trigger] slot_off(b2, i) == slot_off(b1, i) && slot_len(b2, i)
                == slot_len(b1, i) && tuple_of(b2, i) == tuple_of(b1, i),
    ensures
        live_slots(b2, n) == live_slots(b1, n),
    decreases n,
{
    if n > 0 {
        lemma_live_slots_same(b1, b2, (n - 1) as nat);
        assert(slot_off(b2, n - 1) == slot_off(b1, n - 1));
    }
}

pub struct Page {
    pub data: Vec<u8>,
    pub page_size: usize,
}

impl View for Page {
    type V = Seq<u8>;

    open spec fn view(&self) -> Seq<u8> {
        self.data@
    }
}

impl Page {
    pub const HEADER_SIZE: usize = 12;

    pub const SLOT_ENTRY_SIZE: usize = 4;

    /// An empty page: no slots, free space from the header to the end.
    pub fn new(page_id: u64, page_size: usize) -> (r: Page)
        requires
            12 <= page_size <= u16::MAX,
        ensures
            r.page_size == page_size,
            r@.len() == page_size,
            page_wf(r@, page_size as nat),
            page_id_of(r@) == page_id,
            slot_count_of(r@) == 0,
            free_off_of(r@) == page_size,
            r@.skip(12) == Seq::new((page_size - 12) as nat, |i: int| 0u8),
    {
        let mut data: Vec<u8> = Vec::new();
        push_u64(&mut data, page_id);
        push_u16(&mut data, 0);
        push_u16(&mut data, page_size as u16);
        let ghost head = data@;
        while data.len() < page_size
            invariant
                12 <= data@.len() <= page_size,
                data@.take(12) == head,
                head == le_u64(page_id) + le_u16(0) + le_u16(page_size as u16),
                data@.skip(12) == Seq::new((data@.len() - 12) as nat, |i: int| 0u8),
            decreases page_size - data@.len(),
        {
            let ghost prev = data@;
            data.push(0);
            assert(data@.skip(12) =~= prev.skip(12).push(0));
            assert(data@.take(12) =~= head);
            assert(data@.skip(12) =~= Seq::new((data@.len() - 12) as nat, |i: int| 0u8));
        }
        proof {
            crate::bytes::lemma_u64_round_trip(page_id);
            crate::bytes::lemma_u16_round_trip(0);
            crate::bytes::lemma_u16_round_trip(page_size as u16);
            assert(data@[0] == head[0] && data@[1] == head[1] && data@[2] == head[2]);
            assert(data@[3] == head[3] && data@[4] == head[4] && data@[5] == head[5]);
            assert(data@[6] == head[6] && data@[7] == head[7] && data@[8] == head[8]);
            assert(data@[9] == head[9] && data@[10] == head[10] && data@[11] == head[11]);
            assert(page_id_of(data@) == u64_at(le_u64(page_id), 0));
            assert(slot_count_of(data@) == u16_at(le_u16(0), 0));
            assert(free_off_of(data@) == u16_at(le_u16(page_size as u16), 0));
        }
        Page { data, page_size }
    }

    /// Takes a page image of `page_size` bytes.
    pub fn from_bytes(data: Vec<u8>, page_size: usize) -> (r: Page)
        requires
            data@.len() == page_size,
        ensures
            r@ == data@,
            r.page_size == page_size,
    {
        Page { data, page_size }
    }

    /// The page image.
    pub fn to_bytes(self) -> (r: Vec<u8>)
        ensures
            r@ == self@,
    {
        self.data
    }

    /// Whether the page is well formed for its size.
    pub fn is_well_formed(&self) -> (r: bool)
        ensures
            r == page_wf(self@, self.page_size as nat),
    {
        let len = self.data.len();
        if len != self.page_size || len > 65535 || len < 12 {
            return false;
        }
        let count = read_u16(self.data.as_slice(), 8) as usize;
        let free_off = read_u16(self.data.as_slice(), 10) as usize;
        if 12 + 4 * count > free_off || free_off > len {
            return false;
        }
        let mut i: usize = 0;
        while i < count
            invariant
                len == self.data@.len() == self.page_size,
                len <= u16::MAX,
                count == slot_count_of(self@),
                free_off == free_off_of(self@),
                12 + 4 * count <= free_off <= len,
                i <= count,
                forall|j: int|
                    0 <= j < i ==> free_off <= #[trigger] slot_off(self@, j) && slot_off(self@, j)
                        + slot_len(self@, j) <= len,
            decreases count - i,
        {
            let off = read_u16(self.data.as_slice(), 12 + 4 * i) as usize;
            let l = read_u16(self.data.as_slice(), 12 + 4 * i + 2) as usize;
            if off < free_off || off + l > len {
                assert(!(free_off <= slot_off(self@, i as int) && slot_off(self@, i as int)
                    + slot_len(self@, i as int) <= len));
                return false;
            }
            i = i + 1;
        }
        true
    }

    pub fn slot_dir_offset(&self) -> (r: usize)
        ensures
            r == 12,
    {
        Self::HEADER_SIZE
    }

    /// Where the slot directory ends.
    pub fn payload_start(&self) -> (r: usize)
        requires
            self@.len() >= 12,
        ensures
            r == 12 + 4 * slot_count_of(self@),
    {
        let count = read_u16(self.data.as_slice(), 8) as usize;
        self.slot_dir_offset() + count * Self::SLOT_ENTRY_SIZE
    }

    /// Free bytes between the slot directory and the tuples.
    pub fn free_space(&self) -> (r: usize)
        requires
            page_wf(self@, self.page_size as nat),
        ensures
            r == free_space_of(self@),
    {
        let free_off = read_u16(self.data.as_slice(), 10) as usize;
        free_off - self.payload_start()
    }

    /// Stores `tuple` in a new slot and returns its record id.
    pub fn insert_tuple(&mut self, tuple: &[u8]) -> (r: Result<RID, PageError>)
        requires
            page_wf(old(self)@, old(self).page_size as nat),
        ensures
            final(self).page_size == old(self).page_size,
            tuple@.len() + 4 <= free_space_of(old(self)@) ==> r == Ok::<RID, PageError>(
                (page_id_of(old(self)@), slot_count_of(old(self)@)),
            ) && final(self)@ == insert_image(old(self)@, tuple@),
            tuple@.len() + 4 > free_space_of(old(self)@) ==> r == Err::<RID, PageError>(
                PageError::NotEnoughSpace,
            ) && final(self)@ == old(self)@,
            page_wf(final(self)@, final(self).page_size as nat),
    {
        let tuple_len = tuple.len();
        let free = self.free_space();
        if tuple_len > free || free - tuple_len < Self::SLOT_ENTRY_SIZE {
            return Err(PageError::NotEnoughSpace);
        }
        proof {
            lemma_insert_image(self@, tuple@, self.page_size as nat);
        }
        let ghost b = self@;
        let free_off = read_u16(self.data.as_slice(), 10) as usize;
        let new_free_off = free_off - tuple_len;
        let slot_no = read_u16(self.data.as_slice(), 8);
        let entry_off = Self::HEADER_SIZE + (slot_no as usize) * Self::SLOT_ENTRY_SIZE;
        let page_id = read_u64(self.data.as_slice(), 0);
        // payload
        let mut i: usize = 0;
        while i < tuple_len
            invariant
                i <= tuple_len == tuple@.len(),
                self.page_size == old(self).page_size,
                b.len() <= u16::MAX,
                new_free_off + tuple_len <= self.data@.len() == b.len(),
                self.data@ == Seq::new(
                    b.len(),
                    |k: int|
                        if new_free_off <= k < new_free_off + i {
                            tuple@[k - new_free_off]
                        } else {
                            b[k]
                        },
                ),
            decreases tuple_len - i,
        {
            self.data.set(new_free_off + i, tuple[i]);
            i = i + 1;
            assert(self.data@ =~= Seq::new(
                b.len(),
                |k: int|
                    if new_free_off <= k < new_free_off + i {
                        tuple@[k - new_free_off]
                    } else {
                        b[k]
                    },
            ));
        }
        assert(self.data@ =~= overwrite(b, new_free_off as int, tuple@));
        write_u16(&mut self.data, entry_off + 2, tuple_len as u16);
        write_u16(&mut self.data, entry_off, new_free_off as u16);
        write_u16(&mut self.data, 10, new_free_off as u16);
        write_u16(&mut self.data, 8, slot_no + 1);
        assert(self.data@ =~= insert_image(b, tuple@));
        Ok((page_id, slot_no))
    }

    /// The bytes slot `slot_no` refers to, or `None` past the last slot.
    pub fn get_tuple(&self, slot_no: u16) -> (r: Option<&[u8]>)
        requires
            page_wf(self@, self.page_size as nat),
        ensures
            slot_no < slot_count_of(self@) ==> (r matches Some(t) && t@ == tuple_of(
                self@,
                slot_no as int,
            )),
            slot_no >= slot_count_of(self@) ==> r is None,
    {
        let count = read_u16(self.data.as_slice(), 8);
        if slot_no >= count {
            return None;
        }
        let entry_off = Self::HEADER_SIZE + (slot_no as usize) * Self::SLOT_ENTRY_SIZE;
        let off = read_u16(self.data.as_slice(), entry_off) as usize;
        let len = read_u16(self.data.as_slice(), entry_off + 2) as usize;
        assert(free_off_of(self@) <= slot_off(self@, slot_no as int));
        Some(vstd::slice::slice_subrange(self.data.as_slice(), off, off + len))
    }

    /// Marks slot `slot_no` as a tombstone by setting its length to 0.
    pub fn delete_tuple(&mut self, slot_no: u16) -> (r: Result<(), PageError>)
        requires
            page_wf(old(self)@, old(self).page_size as nat),
        ensures
            final(self).page_size == old(self).page_size,
            slot_no < slot_count_of(old(self)@) ==> r is Ok && final(self)@ == overwrite(
                old(self)@,
                12 + 4 * slot_no + 2,
                le_u16(0),
            ),
            slot_no >= slot_count_of(old(self)@) ==> r == Err::<(), PageError>(
                PageError::InvalidSlot,
            ) && final(self)@ == old(self)@,
            page_wf(final(self)@, final(self).page_size as nat),
    {
        let count = read_u16(self.data.as_slice(), 8);
        if slot_no >= count {
            return Err(PageError::InvalidSlot);
        }
        let entry_off = Self::HEADER_SIZE + (slot_no as usize) * Self::SLOT_ENTRY_SIZE;
        let ghost b = self@;
        write_u16(&mut self.data, entry_off + 2, 0);
        assert(self.data@ =~= overwrite(b, 12 + 4 * slot_no + 2, le_u16(0)));
        proof {
            let q = 12 + 4 * slot_no + 2;
            let b2 = self.data@;
            lemma_u16_at_overwrite(b, q, le_u16(0), 8);
            lemma_u16_at_overwrite(b, q, le_u16(0), 10);
            lemma_u16_at_written(b, q, 0);
            assert forall|i: int| 0 <= i < slot_count_of(b2) implies free_off_of(b2) <= #[trigger] slot_off(
                b2,
                i,
            ) && slot_off(b2, i) + slot_len(b2, i) <= self.page_size by {
                assert(free_off_of(b) <= slot_off(b, i) && slot_off(b, i) + slot_len(b, i) <= self.page_size);
                lemma_u16_at_overwrite(b, q, le_u16(0), 12 + 4 * i);
                if i != slot_no {
                    lemma_u16_at_overwrite(b, q, le_u16(0), 12 + 4 * i + 2);
                }
            }
        }
        Ok(())
    }

    /// The live slots in slot order, each with its bytes.
    pub fn iter_slots(&self) -> (r: Vec<(u16, &[u8])>)
        requires
            page_wf(self@, self.page_size as nat),
        ensures
            r@.map_values(|e: (u16, &[u8])| (e.0, e.1@)) == live_slots(
                self@,
                slot_count_of(self@) as nat,
            ),
    {
        let count = read_u16(self.data.as_slice(), 8);
        let mut out: Vec<(u16, &[u8])> = Vec::new();
        let mut slot_no: u16 = 0;
        while slot_no < count
            invariant
                page_wf(self@, self.page_size as nat),
                count == slot_count_of(self@),
                slot_no <= count,
                out@.map_values(|e: (u16, &[u8])| (e.0, e.1@)) == live_slots(
                    self@,
                    slot_no as nat,
                ),
            decreases count - slot_no,
        {
            let t = self.get_tuple(slot_no).unwrap();
            let entry_off = Self::HEADER_SIZE + (slot_no as usize) * Self::SLOT_ENTRY_SIZE;
            let len = read_u16(self.data.as_slice(), entry_off + 2);
            let ghost before = out@;
            if len != 0 {
                out.push((slot_no, t));
                assert(out@.map_values(|e: (u16, &[u8])| (e.0, e.1@)) =~= before.map_values(
                    |e: (u16, &[u8])| (e.0, e.1@),
                ).push((slot_no, t@)));
            }
            slot_no = slot_no + 1;
        }
        out
    }
}

} // verus!
