//! First-fit tracker of free bytes per page.
use vstd::prelude::*;
use std::collections::HashMap;

verus! {

broadcast use vstd::std_specs::hash::group_hash_axioms;

/// The tracked pages in the order they were registered, each with its free
/// bytes.
pub type FreeModel = Seq<(u64, usize)>;

/// Whether `page_no` is tracked.
pub open spec fn tracks(s: FreeModel, page_no: u64) -> bool {
    exists|i: int| 0 <= i < s.len() && #[trigger] s[i].0 == page_no
}

/// Where `page_no` is listed (meaningful when it is tracked).
pub open spec fn index_of(s: FreeModel, page_no: u64) -> int {
    choose|i: int| 0 <= i < s.len() && #[trigger] s[i].0 == page_no
}

/// No page is listed twice.
pub open spec fn pages_unique(s: FreeModel) -> bool {
    forall|i: int, j: int| 0 <= i < j < s.len() ==> #[trigger] s[i].0 != #[trigger] s[j].0
}

/// `register`: a tracked page gets its new count in place; another page is
/// appended.
pub open spec fn register_model(s: FreeModel, page_no: u64, free: usize) -> FreeModel {
    if tracks(s, page_no) {
        s.update(index_of(s, page_no), (page_no, free))
    } else {
        s.push((page_no, free))
    }
}

/// `remove`: the entry leaves the list; the others keep their order.
pub open spec fn remove_model(s: FreeModel, page_no: u64) -> FreeModel {
    if tracks(s, page_no) {
        s.remove(index_of(s, page_no))
    } else {
        s
    }
}

/// The first listed page with at least `min` free bytes.
pub open spec fn first_fit(s: FreeModel, min: usize) -> Option<u64>
    decreases s.len(),
{
    if s.len() == 0 {
        None
    } else if s[0].1 >= min {
        Some(s[0].0)
    } else {
        first_fit(s.skip(1), min)
    }
}

pub struct FreeList {
    free_map: HashMap<u64, usize>,
    pages: Vec<u64>,
}

impl View for FreeList {
    type V = FreeModel;

    closed spec fn view(&self) -> FreeModel {
        self.pages@.map_values(|p: u64| (p, self.free_map@[p]))
    }
}

impl FreeList {
    /// The list order holds each tracked page once, and exactly the pages
    /// that have a count.
    pub closed spec fn wf(&self) -> bool {
        &&& forall|i: int, j: int|
            0 <= i < j < self.pages@.len() ==> #[trigger] self.pages@[i] != #[trigger] self.pages@[j]
        &&& forall|p: u64| #[trigger] self.free_map@.contains_key(p) <==> self.pages@.contains(p)
    }

    proof fn lemma_wf_view(&self)
        requires
            self.wf(),
        ensures
            pages_unique(self@),
            forall|p: u64| #[trigger] self.free_map@.contains_key(p) <==> tracks(self@, p),
            forall|i: int| 0 <= i < self@.len() ==> #[trigger] self@[i].0 == self.pages@[i],
    {
        assert forall|p: u64| #[trigger] self.free_map@.contains_key(p) <==> tracks(self@, p) by {
            if self.free_map@.contains_key(p) {
                let i = choose|i: int| 0 <= i < self.pages@.len() && self.pages@[i] == p;
                assert(self@[i].0 == p);
            }
            if tracks(self@, p) {
                let i = choose|i: int| 0 <= i < self@.len() && #[trigger] self@[i].0 == p;
                assert(self.pages@[i] == p);
            }
        }
    }

    pub fn new() -> (r: FreeList)
        ensures
            r.wf(),
            r@ == Seq::<(u64, usize)>::empty(),
    {
        let r = FreeList { free_map: HashMap::new(), pages: Vec::new() };
        assert(r@ =~= Seq::<(u64, usize)>::empty());
        r
    }

    /// Sets the free count of `page_no`, tracking it if it was not.
    pub fn register(&mut self, page_no: u64, free_bytes: usize)
        requires
            old(self).wf(),
        ensures
            final(self).wf(),
            final(self)@ == register_model(old(self)@, page_no, free_bytes),
    {
        proof {
            self.lemma_wf_view();
        }
        let ghost s = self@;
        if !self.free_map.contains_key(&page_no) {
            self.pages.push(page_no);
            self.free_map.insert(page_no, free_bytes);
            assert(!tracks(s, page_no));
            assert(self@ =~= s.push((page_no, free_bytes)));
            assert(self.pages@[self.pages@.len() - 1] == page_no);
            assert forall|p: u64| #[trigger] self.free_map@.contains_key(p) <==> self.pages@.contains(p) by {
                if p != page_no {
                    if self.pages@.contains(p) {
                        let i = choose|i: int| 0 <= i < self.pages@.len() && self.pages@[i] == p;
                        assert(old(self).pages@[i] == p);
                        assert(old(self).pages@.contains(p));
                    }
                    if old(self).pages@.contains(p) {
                        let i = choose|i: int| 0 <= i < old(self).pages@.len() && old(self).pages@[i] == p;
                        assert(self.pages@[i] == p);
                    }
                } else {
                    assert(self.pages@.contains(p));
                }
            }
        } else {
            self.free_map.insert(page_no, free_bytes);
            assert(tracks(s, page_no));
            let ghost i = index_of(s, page_no);
            assert forall|j: int| 0 <= j < s.len() && j != i implies s[j].0 != page_no by {}
            assert(self@ =~= s.update(i, (page_no, free_bytes)));
        }
    }

    /// Stops tracking `page_no`; the other pages keep their order.
    pub fn remove(&mut self, page_no: u64)
        requires
            old(self).wf(),
        ensures
            final(self).wf(),
            final(self)@ == remove_model(old(self)@, page_no),
    {
        proof {
            self.lemma_wf_view();
        }
        let ghost s = self@;
        let ghost old_pages = self.pages@;
        self.free_map.remove(&page_no);
        let mut idx: usize = 0;
        while idx < self.pages.len()
            invariant
                self.pages@ == old_pages,
                idx <= old_pages.len(),
                forall|j: int| 0 <= j < idx ==> old_pages[j] != page_no,
            ensures
                self.pages@ == old_pages,
                idx <= old_pages.len(),
                forall|j: int| 0 <= j < idx ==> old_pages[j] != page_no,
                idx < old_pages.len() ==> old_pages[idx as int] == page_no,
            decreases old_pages.len() - idx,
        {
            if self.pages[idx] == page_no {
                break;
            }
            idx = idx + 1;
        }
        if idx < self.pages.len() {
            self.pages.remove(idx);
            proof {
                assert(s[idx as int].0 == page_no);
                assert(tracks(s, page_no));
                assert(index_of(s, page_no) == idx as int);
                assert(self.pages@ =~= old_pages.remove(idx as int));
                assert forall|j: int| 0 <= j < self.pages@.len() implies self.pages@[j] != page_no by {
                    if j < idx {
                        assert(self.pages@[j] == old_pages[j]);
                    } else {
                        assert(self.pages@[j] == old_pages[j + 1]);
                        assert(old_pages[idx as int] != old_pages[j + 1]);
                    }
                }
                assert(self@ =~= s.remove(idx as int));
                assert forall|a: int, b: int| 0 <= a < b < self.pages@.len() implies #[trigger] self.pages@[a]
                    != #[trigger] self.pages@[b] by {
                    let oa = if a < idx { a } else { a + 1 };
                    let ob = if b < idx { b } else { b + 1 };
                    assert(self.pages@[a] == old_pages[oa] && self.pages@[b] == old_pages[ob]);
                }
                assert forall|p: u64| #[trigger] self.free_map@.contains_key(p)
                    <==> self.pages@.contains(p) by {
                    if p != page_no && old_pages.contains(p) {
                        let i = choose|i: int| 0 <= i < old_pages.len() && old_pages[i] == p;
                        if i < idx {
                            assert(self.pages@[i] == p);
                        } else {
                            assert(i != idx);
                            assert(self.pages@[i - 1] == p);
                        }
                    }
                    if self.pages@.contains(p) {
                        let i = choose|i: int| 0 <= i < self.pages@.len() && self.pages@[i] == p;
                        if i < idx {
                            assert(old_pages[i] == p);
                        } else {
                            assert(old_pages[i + 1] == p);
                        }
                    }
                }
            }
        } else {
            proof {
                assert(!tracks(s, page_no));
                assert(self@ =~= s);
            }
        }
    }

    /// The first listed page with at least `min_bytes` free.
    pub fn choose_page(&self, min_bytes: usize) -> (r: Option<u64>)
        requires
            self.wf(),
        ensures
            r == first_fit(self@, min_bytes),
    {
        proof {
            self.lemma_wf_view();
        }
        let mut i: usize = 0;
        assert(self@.skip(0) =~= self@);
        while i < self.pages.len()
            invariant
                self.wf(),
                i <= self.pages@.len(),
                self@.len() == self.pages@.len(),
                forall|j: int| 0 <= j < self@.len() ==> #[trigger] self@[j].0 == self.pages@[j],
                first_fit(self@, min_bytes) == first_fit(self@.skip(i as int), min_bytes),
            decreases self.pages@.len() - i,
        {
            let page_no = self.pages[i];
            assert(self.pages@.contains(page_no));
            let free = *self.free_map.get(&page_no).unwrap();
            assert(self@.skip(i as int)[0] == (page_no, free));
            if free >= min_bytes {
                return Some(page_no);
            }
            assert(self@.skip(i as int).skip(1) =~= self@.skip(i + 1));
            i = i + 1;
        }
        None
    }
}

} // verus!
