//! The buffer pool: a bounded set of page frames with CLOCK (second chance)
//! replacement. Reading and writing pages on disk is left to the caller:
//! `fetch_page` says which victim to write back and that the page must be
//! read and installed.
use vstd::prelude::*;

verus! {

pub struct Frame {
    pub page_no: u64,
    pub data: Vec<u8>,
    pub is_dirty: bool,
    pub pin_count: usize,
    /// Set on every fetch, cleared when the clock hand passes.
    pub ref_bit: bool,
}

/// What `fetch_page` found.
pub enum Fetch {
    /// The page is resident; its frame is pinned.
    Resident,
    /// The page is not resident. A frame was freed for it; the caller writes
    /// back the victim if one is given, reads the page, and installs it.
    Load { write_back: Option<(u64, Vec<u8>)> },
}

#[derive(Debug, Clone, Copy, PartialEq, Eq, Structural)]
pub enum PoolError {
    /// Every frame is pinned or was referenced since the hand last passed.
    NoEvictableFrame,
}

/// A frame as page number, dirty flag, pin count, reference bit and page
/// bytes.
pub type FrameModel = (u64, bool, usize, bool, Seq<u8>);

pub open spec fn frame_model(f: Frame) -> FrameModel {
    (f.page_no, f.is_dirty, f.pin_count, f.ref_bit, f.data@)
}

/// The position `k` steps after `hand`, going round (at most twice).
pub open spec fn clock_pos(len: int, hand: int, k: int) -> int {
    if hand + k < len {
        hand + k
    } else if hand + k < 2 * len {
        hand + k - len
    } else {
        hand + k - 2 * len
    }
}

/// Whether the hand evicts the frame it reaches at step `k`: an unpinned
/// frame whose reference bit is clear, or was cleared on the first turn.
pub open spec fn evicts_at(fs: Seq<FrameModel>, hand: int, k: int) -> bool {
    let f = fs[clock_pos(fs.len() as int, hand, k)];
    f.2 == 0 && (k >= fs.len() || !f.3)
}

/// The number of steps from `hand` to the victim, if there is one within
/// two turns (there is exactly when some frame is unpinned).
pub open spec fn victim_steps(fs: Seq<FrameModel>, hand: int, k: int) -> Option<int>
    decreases 2 * fs.len() - k,
{
    if k < 0 || k >= 2 * fs.len() {
        None
    } else if evicts_at(fs, hand, k) {
        Some(k)
    } else {
        victim_steps(fs, hand, k + 1)
    }
}

pub struct BufferPool {
    frames: Vec<Frame>,
    capacity: usize,
    clock_hand: usize,
}

impl BufferPool {
    /// The frames in clock order.
    pub closed spec fn frames_model(&self) -> Seq<FrameModel> {
        self.frames@.map_values(|f: Frame| frame_model(f))
    }

    pub closed spec fn capacity_spec(&self) -> nat {
        self.capacity as nat
    }

    /// Whether `page_no` is resident.
    pub open spec fn resident(&self, page_no: u64) -> bool {
        exists|i: int| 0 <= i < self.frames_model().len() && (#[trigger] self.frames_model()[i]).0 == page_no
    }

    /// At most `capacity` frames, each page at most once, the hand on a
    /// frame (or at 0).
    pub closed spec fn wf(&self) -> bool {
        &&& self.frames@.len() <= self.capacity
        &&& forall|i: int, j: int|
            0 <= i < j < self.frames@.len() ==> (#[trigger] self.frames@[i]).page_no != (
            #[trigger] self.frames@[j]).page_no
        &&& (self.clock_hand < self.frames@.len() || self.clock_hand == 0)
    }

    pub fn new(capacity: usize) -> (r: BufferPool)
        ensures
            r.wf(),
            r.frames_model().len() == 0,
            r.capacity_spec() == capacity,
    {
        let r = BufferPool { frames: Vec::new(), capacity, clock_hand: 0 };
        assert(r.frames_model() =~= Seq::<FrameModel>::empty());
        r
    }

    fn find(&self, page_no: u64) -> (r: Option<usize>)
        ensures
            r matches Some(i) ==> i < self.frames@.len() && self.frames@[i as int].page_no == page_no,
            r is None ==> !self.resident(page_no),
    {
        let mut i: usize = 0;
        while i < self.frames.len()
            invariant
                i <= self.frames@.len(),
                forall|j: int| 0 <= j < i ==> self.frames@[j].page_no != page_no,
            decreases self.frames@.len() - i,
        {
            if self.frames[i].page_no == page_no {
                return Some(i);
            }
            i = i + 1;
        }
        proof {
            assert forall|j: int| 0 <= j < self.frames_model().len() implies (#[trigger] self.frames_model()[j]).0
                != page_no by {
                assert(self.frames_model()[j].0 == self.frames@[j].page_no);
            }
        }
        None
    }

    /// Pins `page_no`. A resident page is pinned and referenced. Otherwise a
    /// frame is made free for it: at once when the pool is not full, else by
    /// `evict_one`; the caller then loads the page with `install`.
    pub fn fetch_page(&mut self, page_no: u64) -> (r: Result<Fetch, PoolError>)
        requires
            old(self).wf(),
        ensures
            final(self).wf(),
            final(self).capacity_spec() == old(self).capacity_spec(),
            old(self).resident(page_no) ==> (r matches Ok(Fetch::Resident) && final(self).frames_model()
                == pin_frame(old(self).frames_model(), page_no)),
            !old(self).resident(page_no) && old(self).frames_model().len() < old(self).capacity_spec()
                ==> (r matches Ok(Fetch::Load { write_back: None }) && final(self).frames_model()
                == old(self).frames_model()),
            !old(self).resident(page_no) && old(self).frames_model().len() >= old(self).capacity_spec()
                ==> ({
                let fm = old(self).frames_model();
                let hand = old(self).hand();
                match victim_steps(fm, hand, 0) {
                    Some(k) => {
                        let v = clock_pos(fm.len() as int, hand, k);
                        &&& r matches Ok(Fetch::Load { write_back }) && (write_back is Some
                            <==> fm[v].1) && (write_back matches Some(w) ==> w.0 == fm[v].0 && w.1@ == fm[v].4)
                        &&& final(self).frames_model() == clear_passed(fm, hand, k).remove(v)
                    },
                    None => r is Err && final(self).frames_model() == clear_passed(
                        fm,
                        hand,
                        (2 * fm.len()) as int,
                    ),
                }
            }),
    {
        match self.find(page_no) {
            Some(i) => {
                let ghost fm = self.frames_model();
                assert(fm[i as int].0 == page_no);
                let mut f = self.frames.remove(i);
                f.pin_count = if f.pin_count < usize::MAX {
                    f.pin_count + 1
                } else {
                    f.pin_count
                };
                f.ref_bit = true;
                let ghost before = self.frames@;
                self.frames.insert(i, f);
                proof {
                    assert(self.frames_model() =~= pin_frame(fm, page_no)) by {
                        assert forall|j: int| 0 <= j < fm.len() && j != i implies fm[j].0 != page_no by {
                            assert(self.frames@[j].page_no == old(self).frames@[j].page_no);
                        }
                    }
                    assert forall|a: int, b: int| 0 <= a < b < self.frames@.len() implies (
                    #[trigger] self.frames@[a]).page_no != (#[trigger] self.frames@[b]).page_no by {
                        assert(self.frames@[a].page_no == old(self).frames@[a].page_no);
                        assert(self.frames@[b].page_no == old(self).frames@[b].page_no);
                    }
                }
                Ok(Fetch::Resident)
            },
            None => {
                if self.frames.len() < self.capacity {
                    return Ok(Fetch::Load { write_back: None });
                }
                match self.evict_one() {
                    Ok(victim) => Ok(Fetch::Load { write_back: victim }),
                    Err(e) => Err(e),
                }
            },
        }
    }

    pub closed spec fn hand(&self) -> int {
        self.clock_hand as int
    }

    /// The CLOCK hand: passes pinned frames, clears the reference bit of
    /// referenced ones, and evicts the first frame that is neither, going
    /// round a second time if needed. Fails when every frame is pinned.
    /// Returns the evicted page and its bytes when it was dirty.
    fn evict_one(&mut self) -> (r: Result<Option<(u64, Vec<u8>)>, PoolError>)
        requires
            old(self).wf(),
        ensures
            final(self).wf(),
            final(self).capacity == old(self).capacity,
            ({
                let fm = old(self).frames_model();
                let hand = old(self).hand();
                match victim_steps(fm, hand, 0) {
                    Some(k) => {
                        let v = clock_pos(fm.len() as int, hand, k);
                        &&& r matches Ok(w) && (w is Some <==> fm[v].1) && (w matches Some(x)
                            ==> x.0 == fm[v].0 && x.1@ == fm[v].4)
                        &&& final(self).frames_model() == clear_passed(fm, hand, k).remove(v)
                    },
                    None => r is Err && final(self).frames_model() == clear_passed(
                        fm,
                        hand,
                        (2 * fm.len()) as int,
                    ),
                }
            }),
    {
        let ghost fm = self.frames_model();
        let len = self.frames.len();
        let hand = if self.clock_hand < len {
            self.clock_hand
        } else {
            0
        };
        assert(hand == self.hand());
        let mut turn: usize = 0;
        let mut j: usize = 0;
        proof {
            assert(self.frames_model() =~= clear_passed(fm, hand as int, 0));
        }
        loop
            invariant
                len == self.frames@.len() == fm.len(),
                hand < len || len == 0,
                hand == old(self).hand(),
                fm == old(self).frames_model(),
                old(self).wf(),
                turn <= 1,
                j <= len,
                self.capacity == old(self).capacity,
                self.frames_model() == clear_passed(fm, hand as int, step_count(turn, j, len)),
                victim_steps(fm, hand as int, 0) == victim_steps(fm, hand as int, step_count(turn, j, len)),
                forall|i: int| 0 <= i < len ==> (#[trigger] self.frames@[i]).page_no == old(self).frames@[i].page_no,
                forall|i: int| 0 <= i < len ==> (#[trigger] self.frames@[i]).data == old(self).frames@[i].data,
            ensures
                len == self.frames@.len() == fm.len(),
                self.capacity == old(self).capacity,
                self.frames_model() == clear_passed(fm, hand as int, 2 * len),
                victim_steps(fm, hand as int, 0) is None,
                forall|i: int| 0 <= i < len ==> (#[trigger] self.frames@[i]).page_no == old(self).frames@[i].page_no,
            decreases 2 - turn, len - j,
        {
            if j >= len {
                if turn == 0 {
                    turn = 1;
                    j = 0;
                    continue;
                }
                break;
            }
            let ghost k = step_count(turn, j, len);
            let pos = if j < len - hand {
                hand + j
            } else {
                j - (len - hand)
            };
            proof {
                lemma_clock_pos(fm.len() as int, hand as int, k);
                assert(clock_pos(len as int, hand as int, k) == pos);
                if turn == 0 {
                    lemma_not_passed_yet(fm.len() as int, hand as int, k);
                    assert(self.frames_model()[pos as int] == fm[pos as int]);
                } else {
                    lemma_passed_second_turn(fm.len() as int, hand as int, k);
                }
            }
            let pinned = self.frames[pos].pin_count > 0;
            let referenced = self.frames[pos].ref_bit;
            proof {
                let cur = self.frames_model()[pos as int];
                assert(cur == frame_model(self.frames@[pos as int]));
                assert(cur == clear_passed(fm, hand as int, k)[pos as int]);
                assert(cur.2 == fm[pos as int].2);
                if turn == 1 && fm[pos as int].2 == 0 {
                    assert(passed(len as int, hand as int, k, pos as int));
                    assert(!cur.3);
                }
            }
            assert(evicts_at(fm, hand as int, k) == (!pinned && !referenced));
            if !pinned && !referenced {
                let ghost pre = self.frames@;
                let f = self.frames.remove(pos);
                let new_len = self.frames.len();
                self.clock_hand = if pos < new_len {
                    pos
                } else {
                    0
                };
                proof {
                    assert(self.frames_model() =~= clear_passed(fm, hand as int, k).remove(pos as int));
                    assert forall|a: int, b: int| 0 <= a < b < self.frames@.len() implies (
                    #[trigger] self.frames@[a]).page_no != (#[trigger] self.frames@[b]).page_no by {
                        let oa = if a < pos { a } else { a + 1 };
                        let ob = if b < pos { b } else { b + 1 };
                        assert(self.frames@[a] == pre[oa]);
                        assert(self.frames@[b] == pre[ob]);
                        assert(pre[oa].page_no == old(self).frames@[oa].page_no);
                        assert(pre[ob].page_no == old(self).frames@[ob].page_no);
                        assert(oa < ob);
                        assert(old(self).frames@[oa].page_no != old(self).frames@[ob].page_no);
                    }
                }
                if f.is_dirty {
                    return Ok(Some((f.page_no, f.data)));
                }
                return Ok(None);
            }
            let ghost pre = self.frames_model();
            if !pinned {
                let mut f = self.frames.remove(pos);
                f.ref_bit = false;
                self.frames.insert(pos, f);
                assert(self.frames_model() =~= pre.update(
                    pos as int,
                    (pre[pos as int].0, pre[pos as int].1, pre[pos as int].2, false, pre[pos as int].4),
                ));
            }
            proof {
                lemma_clear_step(fm, hand as int, k);
                assert(self.frames_model() =~= clear_passed(fm, hand as int, k + 1));
            }
            j = j + 1;
        }
        self.clock_hand = hand;
        proof {
            assert forall|a: int, b: int| 0 <= a < b < self.frames@.len() implies (
            #[trigger] self.frames@[a]).page_no != (#[trigger] self.frames@[b]).page_no by {
                assert(self.frames@[a].page_no == old(self).frames@[a].page_no);
                assert(self.frames@[b].page_no == old(self).frames@[b].page_no);
            }
        }
        Err(PoolError::NoEvictableFrame)
    }

    /// Adds the frame of a page just read: pinned once and referenced.
    pub fn install(&mut self, page_no: u64, data: Vec<u8>)
        requires
            old(self).wf(),
            !old(self).resident(page_no),
            old(self).frames_model().len() < old(self).capacity_spec(),
        ensures
            final(self).wf(),
            final(self).capacity_spec() == old(self).capacity_spec(),
            final(self).frames_model() == old(self).frames_model().push((page_no, false, 1usize, true, data@)),
    {
        let ghost fm = self.frames_model();
        self.frames.push(Frame { page_no, data, is_dirty: false, pin_count: 1, ref_bit: true });
        proof {
            assert(self.frames_model() =~= fm.push((page_no, false, 1usize, true, data@)));
            assert forall|a: int, b: int| 0 <= a < b < self.frames@.len() implies (
            #[trigger] self.frames@[a]).page_no != (#[trigger] self.frames@[b]).page_no by {
                if b == self.frames@.len() - 1 {
                    assert(fm[a].0 == self.frames@[a].page_no);
                }
            }
        }
    }

    /// A pool never holds more frames than its capacity.
    pub proof fn lemma_within_capacity(&self)
        requires
            self.wf(),
        ensures
            self.frames_model().len() <= self.capacity_spec(),
    {
    }

    /// The bytes of a resident page.
    pub fn page_data(&self, page_no: u64) -> (r: Option<&Vec<u8>>)
        ensures
            r is Some <==> self.resident(page_no),
            r matches Some(d) ==> exists|i: int|
                0 <= i < self.frames_model().len() && self.frames_model()[i].0 == page_no
                    && #[trigger] self.frames_model()[i].4 == d@,
    {
        match self.find(page_no) {
            Some(i) => {
                assert(self.frames_model()[i as int].0 == page_no);
                assert(self.frames_model()[i as int].4 == self.frames@[i as int].data@);
                Some(&self.frames[i].data)
            },
            None => None,
        }
    }

    /// Replaces the bytes of a resident page and marks it dirty.
    pub fn set_page_data(&mut self, page_no: u64, data: Vec<u8>) -> (r: bool)
        requires
            old(self).wf(),
        ensures
            final(self).wf(),
            final(self).capacity_spec() == old(self).capacity_spec(),
            r == old(self).resident(page_no),
            final(self).frames_model() == old(self).frames_model().map_values(
                |f: FrameModel| if f.0 == page_no { (f.0, true, f.2, f.3, data@) } else { f },
            ),
    {
        let ghost fm = self.frames_model();
        match self.find(page_no) {
            Some(i) => {
                assert(fm[i as int].0 == page_no);
                let mut f = self.frames.remove(i);
                f.data = data;
                f.is_dirty = true;
                self.frames.insert(i, f);
                proof {
                    assert forall|j: int| 0 <= j < fm.len() && j != i implies fm[j].0 != page_no by {}
                    assert(self.frames_model() =~= fm.map_values(
                        |f: FrameModel| if f.0 == page_no { (f.0, true, f.2, f.3, data@) } else { f },
                    ));
                    assert forall|a: int, b: int| 0 <= a < b < self.frames@.len() implies (
                    #[trigger] self.frames@[a]).page_no != (#[trigger] self.frames@[b]).page_no by {
                        assert(self.frames@[a].page_no == old(self).frames@[a].page_no);
                        assert(self.frames@[b].page_no == old(self).frames@[b].page_no);
                    }
                }
                true
            },
            None => {
                assert(self.frames_model() =~= fm.map_values(
                    |f: FrameModel| if f.0 == page_no { (f.0, true, f.2, f.3, data@) } else { f },
                ));
                false
            },
        }
    }

    /// The dirty pages with their bytes, in clock order, to be written back;
    /// their frames become clean.
    pub fn take_dirty(&mut self) -> (r: Vec<(u64, Vec<u8>)>)
        requires
            old(self).wf(),
        ensures
            final(self).wf(),
            final(self).capacity_spec() == old(self).capacity_spec(),
            final(self).frames_model() == old(self).frames_model().map_values(
                |f: FrameModel| (f.0, false, f.2, f.3, f.4),
            ),
            r@.map_values(|e: (u64, Vec<u8>)| (e.0, e.1@)) == dirty_pages(old(self).frames_model()),
    {
        let ghost fm = self.frames_model();
        let mut out: Vec<(u64, Vec<u8>)> = Vec::new();
        let mut i: usize = 0;
        while i < self.frames.len()
            invariant
                i <= self.frames@.len() == fm.len(),
                self.capacity == old(self).capacity,
                self.clock_hand == old(self).clock_hand,
                old(self).wf(),
                fm == old(self).frames_model(),
                forall|j: int| 0 <= j < fm.len() ==> (#[trigger] self.frames@[j]).page_no == fm[j].0,
                forall|j: int|
                    0 <= j < fm.len() ==> #[trigger] self.frames_model()[j] == if j < i {
                        (fm[j].0, false, fm[j].2, fm[j].3, fm[j].4)
                    } else {
                        fm[j]
                    },
                out@.map_values(|e: (u64, Vec<u8>)| (e.0, e.1@)) == dirty_pages(fm.take(i as int)),
            decreases fm.len() - i,
        {
            assert(fm.take(i + 1).drop_last() =~= fm.take(i as int));
            let ghost before = out@.map_values(|e: (u64, Vec<u8>)| (e.0, e.1@));
            let ghost pre = self.frames_model();
            assert(pre[i as int] == fm[i as int]);
            if self.frames[i].is_dirty {
                let mut f = self.frames.remove(i);
                f.is_dirty = false;
                let copy = copy_bytes(&f.data);
                out.push((f.page_no, copy));
                self.frames.insert(i, f);
                assert(out@.map_values(|e: (u64, Vec<u8>)| (e.0, e.1@)) =~= before.push((fm[i as int].0, fm[i as int].4)));
                assert(self.frames_model() =~= pre.update(
                    i as int,
                    (pre[i as int].0, false, pre[i as int].2, pre[i as int].3, pre[i as int].4),
                ));
            } else {
                assert(self.frames_model() == pre);
            }
            i = i + 1;
        }
        proof {
            assert(fm.take(i as int) =~= fm);
            assert(self.frames_model() =~= fm.map_values(|f: FrameModel| (f.0, false, f.2, f.3, f.4)));
            assert forall|a: int, b: int| 0 <= a < b < self.frames@.len() implies (
            #[trigger] self.frames@[a]).page_no != (#[trigger] self.frames@[b]).page_no by {
                assert(old(self).frames@[a].page_no == fm[a].0);
                assert(old(self).frames@[b].page_no == fm[b].0);
            }
        }
        out
    }

    /// Unpins `page_no` (the count stops at 0) and marks it dirty if asked.
    pub fn unpin_page(&mut self, page_no: u64, is_dirty: bool)
        requires
            old(self).wf(),
        ensures
            final(self).wf(),
            final(self).capacity_spec() == old(self).capacity_spec(),
            final(self).frames_model() == unpin_frame(old(self).frames_model(), page_no, is_dirty),
    {
        let ghost fm = self.frames_model();
        match self.find(page_no) {
            Some(i) => {
                let mut f = self.frames.remove(i);
                if f.pin_count > 0 {
                    f.pin_count = f.pin_count - 1;
                }
                if is_dirty {
                    f.is_dirty = true;
                }
                self.frames.insert(i, f);
                proof {
                    assert forall|j: int| 0 <= j < fm.len() && j != i implies fm[j].0 != page_no by {}
                    assert(self.frames_model() =~= unpin_frame(fm, page_no, is_dirty));
                    assert forall|a: int, b: int| 0 <= a < b < self.frames@.len() implies (
                    #[trigger] self.frames@[a]).page_no != (#[trigger] self.frames@[b]).page_no by {
                        assert(self.frames@[a].page_no == old(self).frames@[a].page_no);
                        assert(self.frames@[b].page_no == old(self).frames@[b].page_no);
                    }
                }
            },
            None => {
                proof {
                    assert(self.frames_model() =~= unpin_frame(fm, page_no, is_dirty));
                }
            },
        }
    }
}

/// The frames after `page_no` is pinned once more (the count stops at its
/// largest value) and referenced.
pub open spec fn pin_frame(fs: Seq<FrameModel>, page_no: u64) -> Seq<FrameModel> {
    fs.map_values(
        |f: FrameModel|
            if f.0 == page_no {
                (f.0, f.1, if f.2 < usize::MAX { (f.2 + 1) as usize } else { f.2 }, true, f.4)
            } else {
                f
            },
    )
}

/// The frames after `page_no` is unpinned once and, if asked, dirtied.
pub open spec fn unpin_frame(fs: Seq<FrameModel>, page_no: u64, dirty: bool) -> Seq<FrameModel> {
    fs.map_values(
        |f: FrameModel|
            if f.0 == page_no {
                (f.0, f.1 || dirty, if f.2 > 0 { (f.2 - 1) as usize } else { 0usize }, f.3, f.4)
            } else {
                f
            },
    )
}

/// A copy of page bytes.
fn copy_bytes(v: &Vec<u8>) -> (r: Vec<u8>)
    ensures
        r@ == v@,
{
    let mut out: Vec<u8> = Vec::new();
    let mut i: usize = 0;
    while i < v.len()
        invariant
            i <= v@.len(),
            out@ == v@.take(i as int),
        decreases v@.len() - i,
    {
        out.push(v[i]);
        i = i + 1;
        assert(out@ =~= v@.take(i as int));
    }
    assert(v@.take(i as int) =~= v@);
    out
}

/// The dirty frames' pages with their bytes, in order.
pub open spec fn dirty_pages(fs: Seq<FrameModel>) -> Seq<(u64, Seq<u8>)>
    decreases fs.len(),
{
    if fs.len() == 0 {
        Seq::empty()
    } else if fs.last().1 {
        dirty_pages(fs.drop_last()).push((fs.last().0, fs.last().4))
    } else {
        dirty_pages(fs.drop_last())
    }
}

/// Whether the hand passed position `i` in its first `k` steps.
pub open spec fn passed(len: int, hand: int, k: int, i: int) -> bool {
    exists|m: int| 0 <= m < k && #[trigger] clock_pos(len, hand, m) == i
}

/// The frames after the hand's first `k` steps: unpinned frames it passed
/// lose their reference bit.
pub open spec fn clear_passed(fs: Seq<FrameModel>, hand: int, k: int) -> Seq<FrameModel> {
    Seq::new(
        fs.len(),
        |i: int|
            if passed(fs.len() as int, hand, k, i) && fs[i].2 == 0 {
                (fs[i].0, fs[i].1, fs[i].2, false, fs[i].4)
            } else {
                fs[i]
            },
    )
}

/// Steps taken after `j` steps of turn `turn`.
pub open spec fn step_count(turn: usize, j: usize, len: usize) -> int {
    if turn == 0 {
        j as int
    } else {
        len + j
    }
}

proof fn lemma_clock_pos(len: int, hand: int, k: int)
    requires
        0 <= hand < len,
        0 <= k < 2 * len,
    ensures
        0 <= clock_pos(len, hand, k) < len,
        k >= len ==> clock_pos(len, hand, k) == clock_pos(len, hand, k - len),
{
}

proof fn lemma_passed_second_turn(len: int, hand: int, k: int)
    requires
        0 <= hand < len,
        len <= k < 2 * len,
    ensures
        passed(len, hand, k, clock_pos(len, hand, k)),
{
    assert(clock_pos(len, hand, k - len) == clock_pos(len, hand, k));
}

proof fn lemma_not_passed_yet(len: int, hand: int, k: int)
    requires
        0 <= hand < len,
        0 <= k < len,
    ensures
        !passed(len, hand, k, clock_pos(len, hand, k)),
        0 <= clock_pos(len, hand, k) < len,
{
    assert forall|m: int| 0 <= m < k implies #[trigger] clock_pos(len, hand, m) != clock_pos(
        len,
        hand,
        k,
    ) by {}
}

proof fn lemma_clear_step(fs: Seq<FrameModel>, hand: int, k: int)
    requires
        0 <= hand < fs.len(),
        0 <= k < 2 * fs.len(),
    ensures
        forall|i: int|
            0 <= i < fs.len() ==> #[trigger] passed(fs.len() as int, hand, k + 1, i) == (passed(
                fs.len() as int,
                hand,
                k,
                i,
            ) || i == clock_pos(fs.len() as int, hand, k)),
{
    let len = fs.len() as int;
    assert forall|i: int| 0 <= i < len implies #[trigger] passed(len, hand, k + 1, i) == (passed(
        len,
        hand,
        k,
        i,
    ) || i == clock_pos(len, hand, k)) by {
        if passed(len, hand, k + 1, i) {
            let m = choose|m: int| 0 <= m < k + 1 && #[trigger] clock_pos(len, hand, m) == i;
            if m < k {
                assert(passed(len, hand, k, i));
            }
        }
        if passed(len, hand, k, i) {
            let m = choose|m: int| 0 <= m < k && #[trigger] clock_pos(len, hand, m) == i;
            assert(0 <= m < k + 1);
        }
        if i == clock_pos(len, hand, k) {
            assert(0 <= k < k + 1);
        }
    }
}

/// The evicted frame is never pinned: every frame that is pinned before an
/// eviction is still resident after it, and the pool stays within its
/// capacity.
pub proof fn lemma_pinned_never_evicted(fs: Seq<FrameModel>, hand: int)
    requires
        0 <= hand < fs.len(),
        forall|a: int, b: int| 0 <= a < b < fs.len() ==> (#[trigger] fs[a]).0 != (#[trigger] fs[b]).0,
    ensures
        victim_steps(fs, hand, 0) matches Some(k) ==> ({
            let v = clock_pos(fs.len() as int, hand, k);
            let after = clear_passed(fs, hand, k).remove(v);
            &&& fs[v].2 == 0
            &&& after.len() == fs.len() - 1
            &&& forall|i: int|
                0 <= i < fs.len() && fs[i].2 > 0 ==> exists|j: int|
                    0 <= j < after.len() && #[trigger] after[j] == fs[i]
        }),
{
    if let Some(k) = victim_steps(fs, hand, 0) {
        lemma_victim_evictable(fs, hand, 0);
        let v = clock_pos(fs.len() as int, hand, k);
        let c = clear_passed(fs, hand, k);
        let after = c.remove(v);
        assert forall|i: int| 0 <= i < fs.len() && fs[i].2 > 0 implies exists|j: int|
            0 <= j < after.len() && #[trigger] after[j] == fs[i] by {
            assert(i != v);
            assert(c[i] == fs[i]);
            if i < v {
                assert(after[i] == c[i]);
            } else {
                assert(after[i - 1] == c[i]);
            }
        }
    }
}

proof fn lemma_victim_evictable(fs: Seq<FrameModel>, hand: int, k: int)
    requires
        0 <= hand < fs.len(),
        0 <= k,
    ensures
        victim_steps(fs, hand, k) matches Some(m) ==> k <= m < 2 * fs.len() && evicts_at(fs, hand, m)
            && 0 <= clock_pos(fs.len() as int, hand, m) < fs.len(),
    decreases 2 * fs.len() - k,
{
    if k < 2 * fs.len() {
        lemma_clock_pos(fs.len() as int, hand, k);
        if !evicts_at(fs, hand, k) {
            lemma_victim_evictable(fs, hand, k + 1);
        }
    }
}

} // verus!
