//! The lock table: shared and exclusive locks per resource, with FIFO
//! queues of waiters. Callers wait outside; the table only decides who holds
//! a lock and who is granted one when locks are released.
use vstd::prelude::*;
use crate::text::str_is;

verus! {

pub type TxId = u64;

#[derive(Debug, Clone, PartialEq, Eq, Hash)]
pub enum Resource {
    Table(String),
    Page(u64),
}

/// A resource with a table's name as characters.
pub enum ResourceModel {
    Table(Seq<char>),
    Page(u64),
}

impl View for Resource {
    type V = ResourceModel;

    open spec fn view(&self) -> ResourceModel {
        match self {
            Resource::Table(s) => ResourceModel::Table(s@),
            Resource::Page(p) => ResourceModel::Page(*p),
        }
    }
}

#[derive(Debug, Copy, Clone, PartialEq, Eq, Structural)]
pub enum LockMode {
    Shared,
    Exclusive,
}

/// A granted or requested lock.
pub type Grant = (TxId, LockMode);

/// Shared locks are compatible with each other; every other pair conflicts.
pub open spec fn conflicts(a: LockMode, b: LockMode) -> bool {
    a == LockMode::Exclusive || b == LockMode::Exclusive
}

/// No two holders of a resource hold conflicting modes.
pub open spec fn compatible(holders: Seq<Grant>) -> bool {
    forall|i: int, j: int|
        0 <= i < holders.len() && 0 <= j < holders.len() && i != j ==> !conflicts(
            #[trigger] holders[i].1,
            #[trigger] holders[j].1,
        )
}

pub open spec fn all_shared(holders: Seq<Grant>) -> bool {
    forall|i: int| 0 <= i < holders.len() ==> (#[trigger] holders[i]).1 == LockMode::Shared
}

/// A request can be granted at once when nobody holds the resource, or when
/// it and every holder are shared.
pub open spec fn grantable(holders: Seq<Grant>, mode: LockMode) -> bool {
    holders.len() == 0 || (mode == LockMode::Shared && all_shared(holders))
}

/// The holders left once `tx` releases its locks.
pub open spec fn release(holders: Seq<Grant>, tx: TxId) -> Seq<Grant>
    decreases holders.len(),
{
    if holders.len() == 0 {
        Seq::empty()
    } else {
        let rest = release(holders.drop_last(), tx);
        if holders.last().0 == tx {
            rest
        } else {
            rest.push(holders.last())
        }
    }
}

/// Waiters granted from the head of the queue while the head is grantable;
/// an exclusive grant ends the run. Gives the new holders, the queue left,
/// and the granted waiters in order.
pub open spec fn grant_waiters(holders: Seq<Grant>, queue: Seq<Grant>) -> (Seq<Grant>, Seq<Grant>, Seq<Grant>)
    decreases queue.len(),
{
    if queue.len() == 0 || !grantable(holders, queue[0].1) {
        (holders, queue, Seq::empty())
    } else if queue[0].1 == LockMode::Exclusive {
        (holders.push(queue[0]), queue.skip(1), seq![queue[0]])
    } else {
        let (h, q, g) = grant_waiters(holders.push(queue[0]), queue.skip(1));
        (h, q, seq![queue[0]] + g)
    }
}

#[derive(Debug)]
pub struct LockState {
    pub holders: Vec<Grant>,
    pub queue: Vec<Grant>,
}

/// The state of one resource: its holders and its queue.
pub type EntryModel = (ResourceModel, Seq<Grant>, Seq<Grant>);

pub struct LockManager {
    table: Vec<(Resource, LockState)>,
}

impl LockManager {
    /// Each resource with its holders and its queue.
    pub closed spec fn entries(&self) -> Seq<EntryModel> {
        self.table@.map_values(|e: (Resource, LockState)| (e.0@, e.1.holders@, e.1.queue@))
    }

    /// Every resource is listed once and its holders are compatible.
    pub open spec fn wf(&self) -> bool {
        &&& forall|i: int|
            0 <= i < self.entries().len() ==> compatible(#[trigger] self.entries()[i].1)
        &&& forall|i: int, j: int|
            0 <= i < j < self.entries().len() ==> #[trigger] self.entries()[i].0
                != #[trigger] self.entries()[j].0
    }

    pub fn new() -> (r: LockManager)
        ensures
            r.wf(),
            r.entries().len() == 0,
    {
        let r = LockManager { table: Vec::new() };
        assert(r.entries() =~= Seq::<EntryModel>::empty());
        r
    }

    fn find(&self, res: &Resource) -> (r: Option<usize>)
        ensures
            r matches Some(i) ==> i < self.entries().len() && self.entries()[i as int].0 == res@,
            r is None ==> forall|i: int|
                0 <= i < self.entries().len() ==> (#[trigger] self.entries()[i]).0 != res@,
    {
        let mut i: usize = 0;
        while i < self.table.len()
            invariant
                i <= self.table@.len(),
                self.entries().len() == self.table@.len(),
                forall|j: int| 0 <= j < i ==> (#[trigger] self.entries()[j]).0 != res@,
            decreases self.table@.len() - i,
        {
            let same = match (&self.table[i].0, res) {
                (Resource::Table(a), Resource::Table(b)) => str_is(a.as_str(), b.as_str()),
                (Resource::Page(a), Resource::Page(b)) => *a == *b,
                _ => false,
            };
            assert(self.entries()[i as int].0 == self.table@[i as int].0@);
            if same {
                return Some(i);
            }
            i = i + 1;
        }
        None
    }

    /// Requests `mode` on `res` for `tx`. Granted at once (`true`) when the
    /// request is grantable; otherwise queued behind earlier waiters
    /// (`false`), and the caller waits to be granted by `unlock_all`.
    pub fn lock(&mut self, tx: TxId, res: Resource, mode: LockMode) -> (r: bool)
        requires
            old(self).wf(),
        ensures
            final(self).wf(),
            ({
                let olds = old(self).entries();
                let news = final(self).entries();
                if exists|i: int| 0 <= i < olds.len() && (#[trigger] olds[i]).0 == res@ {
                    let i = choose|i: int| 0 <= i < olds.len() && (#[trigger] olds[i]).0 == res@;
                    &&& r == grantable(olds[i].1, mode)
                    &&& news == olds.update(
                        i,
                        if r {
                            (res@, olds[i].1.push((tx, mode)), olds[i].2)
                        } else {
                            (res@, olds[i].1, olds[i].2.push((tx, mode)))
                        },
                    )
                } else {
                    &&& r
                    &&& news == olds.push((res@, seq![(tx, mode)], Seq::empty()))
                }
            }),
    {
        let ghost olds = self.entries();
        match self.find(&res) {
            Some(i) => {
                let (key, mut state) = self.table.remove(i);
                let mut all_s = true;
                let mut k: usize = 0;
                while k < state.holders.len()
                    invariant
                        k <= state.holders@.len(),
                        all_s == forall|j: int|
                            0 <= j < k ==> (#[trigger] state.holders@[j]).1 == LockMode::Shared,
                    decreases state.holders@.len() - k,
                {
                    if state.holders[k].1 != LockMode::Shared {
                        all_s = false;
                    }
                    k = k + 1;
                }
                let granted = state.holders.len() == 0 || (mode == LockMode::Shared && all_s);
                if granted {
                    state.holders.push((tx, mode));
                } else {
                    state.queue.push((tx, mode));
                }
                self.table.insert(i, (key, state));
                proof {
                    assert(self.entries() =~= olds.update(i as int, self.entries()[i as int]));
                    let h = self.entries()[i as int].1;
                    if granted && olds[i as int].1.len() > 0 {
                        assert forall|a: int, b: int|
                            0 <= a < h.len() && 0 <= b < h.len() && a != b implies !conflicts(
                            #[trigger] h[a].1,
                            #[trigger] h[b].1,
                        ) by {
                            assert(h[a].1 == LockMode::Shared);
                            assert(h[b].1 == LockMode::Shared);
                        }
                    }
                    if granted && olds[i as int].1.len() == 0 {
                        assert(h.len() == 1);
                    }
                    assert(compatible(h));
                    assert forall|a: int| 0 <= a < olds.len() && (#[trigger] olds[a]).0 == res@ implies a
                        == i by {
                        if a != i {
                            if a < i {
                                assert(olds[a].0 != olds[i as int].0);
                            } else {
                                assert(olds[i as int].0 != olds[a].0);
                            }
                        }
                    }
                    assert(forall|j: int|
                        0 <= j < self.entries().len() && j != i ==> self.entries()[j] == olds[j]);
                }
                granted
            },
            None => {
                let mut holders: Vec<Grant> = Vec::new();
                holders.push((tx, mode));
                self.table.push((res, LockState { holders, queue: Vec::new() }));
                proof {
                    assert(self.entries() =~= olds.push((res@, seq![(tx, mode)], Seq::empty())));
                    assert(compatible(seq![(tx, mode)]));
                }
                true
            },
        }
    }

    /// Releases every lock of `tx`; then, resource by resource, grants
    /// waiters from the head of each queue as `grant_waiters` says. Returns
    /// the transactions granted, to be woken.
    pub fn unlock_all(&mut self, tx: TxId) -> (r: Vec<TxId>)
        requires
            old(self).wf(),
        ensures
            r@ == woken_by(old(self).entries(), tx, old(self).entries().len() as int),
            final(self).wf(),
            final(self).entries().len() == old(self).entries().len(),
            forall|i: int|
                0 <= i < old(self).entries().len() ==> {
                    let e = old(self).entries()[i];
                    let (h, q, g) = grant_waiters(release(e.1, tx), e.2);
                    #[trigger] final(self).entries()[i] == (e.0, h, q)
                },
    {
        let ghost olds = self.entries();
        let mut woken: Vec<TxId> = Vec::new();
        let mut i: usize = 0;
        while i < self.table.len()
            invariant
                i <= self.table@.len() == olds.len(),
                self.entries().len() == olds.len(),
                forall|j: int| 0 <= j < olds.len() ==> (#[trigger] self.entries()[j]).0 == olds[j].0,
                forall|j: int|
                    0 <= j < olds.len() ==> compatible(#[trigger] self.entries()[j].1),
                forall|j: int|
                    0 <= j < i ==> {
                        let e = olds[j];
                        let (h, q, g) = grant_waiters(release(e.1, tx), e.2);
                        #[trigger] self.entries()[j] == (e.0, h, q)
                    },
                forall|j: int| i <= j < olds.len() ==> #[trigger] self.entries()[j] == olds[j],
                forall|a: int, b: int|
                    0 <= a < b < olds.len() ==> #[trigger] olds[a].0 != #[trigger] olds[b].0,
                woken@ == woken_by(olds, tx, i as int),
                olds == old(self).entries(),
            decreases olds.len() - i,
        {
            let ghost orig = self.table@;
            let ghost cur = self.entries();
            let ghost e = olds[i as int];
            assert(self.entries()[i as int] == (orig[i as int].0@, orig[i as int].1.holders@, orig[i as int].1.queue@));
            let (key, state) = self.table.remove(i);
            assert(state.holders@ == e.1 && state.queue@ == e.2 && key@ == e.0);
            let holders = release_tx(&state.holders, tx);
            let (new_holders, new_queue, granted) = grant_from_queue(holders, state.queue);
            proof {
                lemma_release_compatible(e.1, tx);
                lemma_grant_compatible(release(e.1, tx), e.2);
            }
            let ghost before = woken@;
            let mut k: usize = 0;
            while k < granted.len()
                invariant
                    k <= granted@.len(),
                    woken@ == before + granted@.take(k as int).map_values(|g: Grant| g.0),
                decreases granted@.len() - k,
            {
                woken.push(granted[k].0);
                k = k + 1;
                assert(woken@ =~= before + granted@.take(k as int).map_values(|g: Grant| g.0));
            }
            assert(granted@.take(k as int) =~= granted@);
            let ghost elem = (key, LockState { holders: new_holders, queue: new_queue });
            self.table.insert(i, (key, LockState { holders: new_holders, queue: new_queue }));
            proof {
                assert(self.table@ =~= orig.update(i as int, elem));
                assert(self.entries() =~= cur.update(i as int, (e.0, elem.1.holders@, elem.1.queue@)));
            }
            i = i + 1;
        }
        woken
    }
}

/// The transactions granted when `tx` releases its locks, resource by
/// resource over the first `n` entries.
pub open spec fn woken_by(es: Seq<EntryModel>, tx: TxId, n: int) -> Seq<TxId>
    decreases n,
{
    if n <= 0 || n > es.len() {
        Seq::empty()
    } else {
        let e = es[n - 1];
        woken_by(es, tx, n - 1) + grant_waiters(release(e.1, tx), e.2).2.map_values(|g: Grant| g.0)
    }
}

/// `a` waits for `b`: `a` is queued on a resource that `b` holds.
pub open spec fn waits_for(es: Seq<EntryModel>, a: TxId, b: TxId) -> bool {
    exists|e: int, i: int, j: int|
        0 <= e < es.len() && 0 <= i < es[e].2.len() && 0 <= j < es[e].1.len() && #[trigger] es[e].2[i].0
            == a && #[trigger] es[e].1[j].0 == b
}

/// A cycle of the wait-for graph: each waits for the next, the last for
/// the first.
pub open spec fn is_wait_cycle(es: Seq<EntryModel>, c: Seq<TxId>) -> bool {
    &&& c.len() > 0
    &&& forall|k: int| 0 <= k < c.len() - 1 ==> waits_for(es, #[trigger] c[k], c[k + 1])
    &&& waits_for(es, c[c.len() - 1], c[0])
}

impl LockManager {
    /// The wait-for edges, each `(waiter, holder)`: exactly the pairs of
    /// `waits_for`.
    fn wait_edges(&self) -> (r: Vec<(TxId, TxId)>)
        ensures
            forall|k: int| 0 <= k < r@.len() ==> waits_for(self.entries(), #[trigger] r@[k].0, r@[k].1),
            forall|a: TxId, b: TxId| waits_for(self.entries(), a, b) ==> is_edge(r@, a, b),
    {
        let ghost es = self.entries();
        let mut edges: Vec<(TxId, TxId)> = Vec::new();
        let mut e: usize = 0;
        while e < self.table.len()
            invariant
                e <= self.table@.len() == es.len(),
                es == self.entries(),
                forall|k: int| 0 <= k < edges@.len() ==> waits_for(es, #[trigger] edges@[k].0, edges@[k].1),
                forall|e2: int, i: int, j: int|
                    0 <= e2 < e && 0 <= i < es[e2].2.len() && 0 <= j < es[e2].1.len() ==> is_edge(
                        edges@,
                        #[trigger] es[e2].2[i].0,
                        #[trigger] es[e2].1[j].0,
                    ),
            decreases self.table@.len() - e,
        {
            let state = &self.table[e].1;
            assert(es[e as int].1 == state.holders@ && es[e as int].2 == state.queue@);
            let mut i: usize = 0;
            while i < state.queue.len()
                invariant
                    e < es.len(),
                    es == self.entries(),
                    es[e as int].1 == state.holders@,
                    es[e as int].2 == state.queue@,
                    i <= state.queue@.len(),
                    forall|k: int| 0 <= k < edges@.len() ==> waits_for(es, #[trigger] edges@[k].0, edges@[k].1),
                    forall|e2: int, i2: int, j: int|
                        0 <= e2 < es.len() && (e2 < e || (e2 == e && i2 < i)) && 0 <= i2 < es[e2].2.len() && 0 <= j
                            < es[e2].1.len() ==> is_edge(edges@, #[trigger] es[e2].2[i2].0, #[trigger] es[e2].1[j].0),
                decreases state.queue@.len() - i,
            {
                let mut j: usize = 0;
                while j < state.holders.len()
                    invariant
                        e < es.len(),
                        es == self.entries(),
                        es[e as int].1 == state.holders@,
                        es[e as int].2 == state.queue@,
                        i < state.queue@.len(),
                        j <= state.holders@.len(),
                        forall|k: int| 0 <= k < edges@.len() ==> waits_for(es, #[trigger] edges@[k].0, edges@[k].1),
                        forall|e2: int, i2: int, j2: int|
                            0 <= e2 < es.len() && (e2 < e || (e2 == e && (i2 < i || (i2 == i && j2 < j))))
                                && 0 <= i2 < es[e2].2.len() && 0 <= j2 < es[e2].1.len() ==> is_edge(
                                edges@,
                                #[trigger] es[e2].2[i2].0,
                                #[trigger] es[e2].1[j2].0,
                            ),
                    decreases state.holders@.len() - j,
                {
                    let a = state.queue[i].0;
                    let b = state.holders[j].0;
                    assert(es[e as int].2[i as int].0 == a && es[e as int].1[j as int].0 == b);
                    let ghost before = edges@;
                    edges.push((a, b));
                    proof {
                        lemma_edges_grow(before, (a, b));
                        assert(edges@[edges@.len() - 1] == (a, b));
                        reveal(is_edge);
                        assert(is_edge(edges@, a, b));
                    }
                    j = j + 1;
                }
                i = i + 1;
            }
            e = e + 1;
        }
        proof {
            assert forall|a: TxId, b: TxId| waits_for(es, a, b) implies is_edge(edges@, a, b) by {
                let (e2, i, j) = choose|e2: int, i: int, j: int|
                    0 <= e2 < es.len() && 0 <= i < es[e2].2.len() && 0 <= j < es[e2].1.len() && #[trigger] es[e2].2[i].0
                        == a && #[trigger] es[e2].1[j].0 == b;
                assert(is_edge(edges@, es[e2].2[i].0, es[e2].1[j].0));
            }
        }
        edges
    }

    /// Looks for a cycle in the wait-for graph (each waiter waits for every
    /// holder of the resource it is queued on). A cycle is reported exactly
    /// when there is one; its transactions are distinct.
    pub fn detect_deadlock(&self) -> (r: Option<Vec<TxId>>)
        ensures
            r matches Some(c) ==> is_wait_cycle(self.entries(), c@) && forall|a: int, b: int|
                0 <= a < b < c@.len() ==> c@[a] != c@[b],
            r is None ==> forall|c: Seq<TxId>| !is_wait_cycle(self.entries(), c),
    {
        let edges = self.wait_edges();
        let ghost es = self.entries();
        let mut k: usize = 0;
        while k < edges.len()
            invariant
                k <= edges@.len(),
                es == self.entries(),
                forall|m: int| 0 <= m < edges@.len() ==> waits_for(es, #[trigger] edges@[m].0, edges@[m].1),
                forall|a: TxId, b: TxId| waits_for(es, a, b) ==> is_edge(edges@, a, b),
                forall|m: int, c: Seq<TxId>|
                    0 <= m < k && #[trigger] cycle_in(edges@, c) ==> !c.contains(#[trigger] edges@[m].0),
            decreases edges@.len() - k,
        {
            let start = edges[k].0;
            match cycle_through(&edges, start) {
                Some(c) => {
                    proof {
                        lemma_listed_cycle(es, edges@, c@);
                    }
                    return Some(c);
                },
                None => {},
            }
            k = k + 1;
        }
        proof {
            assert forall|c: Seq<TxId>| !is_wait_cycle(es, c) by {
                if is_wait_cycle(es, c) {
                    lemma_wait_cycle_listed(es, edges@, c);
                    reveal(is_edge);
                    let x = if c.len() > 1 { c[1] } else { c[0] };
                    assert(is_edge(edges@, c[0], x));
                    let m = choose|m: int| 0 <= m < edges@.len() && edges@[m] == (c[0], x);
                    assert(c.contains(edges@[m].0));
                }
            }
        }
        None
    }
}

/// `(a, b)` is one of `edges`.
#[verifier::opaque]
pub open spec fn is_edge(edges: Seq<(TxId, TxId)>, a: TxId, b: TxId) -> bool {
    exists|q: int| 0 <= q < edges.len() && edges[q] == (a, b)
}

/// A cycle of listed edges.
pub open spec fn cycle_in(edges: Seq<(TxId, TxId)>, c: Seq<TxId>) -> bool {
    &&& c.len() > 0
    &&& forall|m: int| 0 <= m < c.len() - 1 ==> is_edge(edges, #[trigger] c[m], c[m + 1])
    &&& is_edge(edges, c[c.len() - 1], c[0])
}

proof fn lemma_edges_grow(edges: Seq<(TxId, TxId)>, x: (TxId, TxId))
    ensures
        forall|a: TxId, b: TxId| #[trigger] is_edge(edges, a, b) ==> is_edge(edges.push(x), a, b),
{
    reveal(is_edge);
    assert forall|a: TxId, b: TxId| #[trigger] is_edge(edges, a, b) implies is_edge(edges.push(x), a, b) by {
        let q = choose|q: int| 0 <= q < edges.len() && edges[q] == (a, b);
        assert(edges.push(x)[q] == (a, b));
    }
}

/// Every listed edge is a wait-for edge, so a cycle of listed edges is a
/// wait-for cycle.
proof fn lemma_listed_cycle(es: Seq<EntryModel>, edges: Seq<(TxId, TxId)>, c: Seq<TxId>)
    requires
        forall|m: int| 0 <= m < edges.len() ==> waits_for(es, #[trigger] edges[m].0, edges[m].1),
        cycle_in(edges, c),
    ensures
        is_wait_cycle(es, c),
{
    reveal(is_edge);
    assert forall|m: int| 0 <= m < c.len() - 1 implies waits_for(es, #[trigger] c[m], c[m + 1]) by {
        assert(is_edge(edges, c[m], c[m + 1]));
        let q = choose|q: int| 0 <= q < edges.len() && edges[q] == (c[m], c[m + 1]);
        assert(waits_for(es, edges[q].0, edges[q].1));
    }
    let q = choose|q: int| 0 <= q < edges.len() && edges[q] == (c[c.len() - 1], c[0]);
    assert(waits_for(es, edges[q].0, edges[q].1));
}

/// With every wait-for edge listed, a wait-for cycle is a cycle of listed
/// edges.
proof fn lemma_wait_cycle_listed(es: Seq<EntryModel>, edges: Seq<(TxId, TxId)>, c: Seq<TxId>)
    requires
        forall|a: TxId, b: TxId| waits_for(es, a, b) ==> is_edge(edges, a, b),
        is_wait_cycle(es, c),
    ensures
        cycle_in(edges, c),
{
    assert forall|m: int| 0 <= m < c.len() - 1 implies is_edge(edges, #[trigger] c[m], c[m + 1]) by {
        assert(waits_for(es, c[m], c[m + 1]));
    }
}

/// Nodes closed under listed edges, none of which leads back to `start`.
pub open spec fn closed_from(edges: Seq<(TxId, TxId)>, nodes: Seq<TxId>, start: TxId) -> bool {
    forall|a: TxId, b: TxId|
        nodes.contains(a) && #[trigger] is_edge(edges, a, b) ==> nodes.contains(b) && b != start
}

/// Following a cycle from a node in a closed set stays in the set and never
/// meets `start` again.
proof fn lemma_cycle_forward(edges: Seq<(TxId, TxId)>, nodes: Seq<TxId>, start: TxId, c: Seq<TxId>, from: int, to: int)
    requires
        closed_from(edges, nodes, start),
        cycle_in(edges, c),
        0 <= from <= to < c.len(),
        nodes.contains(c[from]),
    ensures
        nodes.contains(c[to]),
        to > from ==> c[to] != start,
    decreases to - from,
{
    if to > from {
        lemma_cycle_forward(edges, nodes, start, c, from, to - 1);
        assert(is_edge(edges, c[to - 1], c[to]));
    }
}

/// A closed set that holds `start` meets no cycle through `start`.
proof fn lemma_closed_no_cycle(edges: Seq<(TxId, TxId)>, nodes: Seq<TxId>, start: TxId, c: Seq<TxId>)
    requires
        closed_from(edges, nodes, start),
        nodes.contains(start),
        cycle_in(edges, c),
    ensures
        !c.contains(start),
{
    if c.contains(start) {
        let i = choose|i: int| 0 <= i < c.len() && c[i] == start;
        let n = c.len() as int;
        lemma_cycle_forward(edges, nodes, start, c, i, n - 1);
        assert(is_edge(edges, c[n - 1], c[0]));
        assert(nodes.contains(c[0]) && c[0] != start);
        lemma_cycle_forward(edges, nodes, start, c, 0, i);
    }
}

/// A path of listed edges from `start`: it begins at `start`, ends at
/// `node`, and visits distinct transactions.
pub open spec fn path_to(edges: Seq<(TxId, TxId)>, start: TxId, path: Seq<TxId>, node: TxId) -> bool {
    &&& path.len() > 0
    &&& path[0] == start
    &&& path[path.len() - 1] == node
    &&& forall|a: int, b: int| 0 <= a < b < path.len() ==> path[a] != path[b]
    &&& forall|m: int| 0 <= m < path.len() - 1 ==> is_edge(edges, #[trigger] path[m], path[m + 1])
}

fn copy_path(p: &Vec<TxId>) -> (r: Vec<TxId>)
    ensures
        r@ == p@,
{
    let mut out: Vec<TxId> = Vec::new();
    let mut i: usize = 0;
    while i < p.len()
        invariant
            i <= p@.len(),
            out@ == p@.take(i as int),
        decreases p@.len() - i,
    {
        out.push(p[i]);
        i = i + 1;
        assert(out@ =~= p@.take(i as int));
    }
    assert(p@.take(i as int) =~= p@);
    out
}

/// Whether `x` is one of `v`.
fn holds(v: &Vec<TxId>, x: TxId) -> (r: bool)
    ensures
        r == v@.contains(x),
{
    let mut i: usize = 0;
    while i < v.len()
        invariant
            i <= v@.len(),
            forall|j: int| 0 <= j < i ==> v@[j] != x,
        decreases v@.len() - i,
    {
        if v[i] == x {
            assert(v@[i as int] == x);
            return true;
        }
        i = i + 1;
    }
    false
}

/// A cycle of `edges` through `start` with distinct transactions, found
/// breadth first; `None` when no cycle of `edges` passes through `start`.
fn cycle_through(edges: &Vec<(TxId, TxId)>, start: TxId) -> (r: Option<Vec<TxId>>)
    ensures
        r matches Some(c) ==> cycle_in(edges@, c@) && c@[0] == start && forall|a: int, b: int|
            0 <= a < b < c@.len() ==> c@[a] != c@[b],
        r is None ==> forall|c: Seq<TxId>| #[trigger] cycle_in(edges@, c) ==> !c.contains(start),
{
    let mut nodes: Vec<TxId> = Vec::new();
    let mut paths: Vec<Vec<TxId>> = Vec::new();
    nodes.push(start);
    let mut p0: Vec<TxId> = Vec::new();
    p0.push(start);
    paths.push(p0);
    let mut head: usize = 0;
    proof {
        assert(nodes@[0] == start);
    }
    while head < nodes.len()
        invariant
            head <= nodes@.len() == paths@.len(),
            nodes@.len() >= 1,
            nodes@[0] == start,
            forall|a: int, b: int| 0 <= a < b < nodes@.len() ==> nodes@[a] != nodes@[b],
            forall|x: int| 0 <= x < nodes@.len() ==> reachable_kind(edges@, start, #[trigger] nodes@[x]),
            nodes@.len() <= edges@.len() + 1,
            forall|x: int| 0 <= x < nodes@.len() ==> path_to(edges@, start, #[trigger] paths@[x]@, nodes@[x]),
            forall|x: int, m: int|
                0 <= x < paths@.len() && 0 <= m < paths@[x]@.len() ==> nodes@.contains(#[trigger] paths@[x]@[m]),
            forall|q: int, x: int|
                0 <= q < edges@.len() && 0 <= x < head && #[trigger] edges@[q].0 == #[trigger] nodes@[x]
                    ==> nodes@.contains(edges@[q].1) && edges@[q].1 != start,
        decreases edges@.len() + 1 - nodes@.len(), nodes@.len() - head,
    {
        let u = nodes[head];
        let ghost old_len = nodes@.len();
        let mut q: usize = 0;
        while q < edges.len()
            invariant
                head < nodes@.len() == paths@.len(),
                u == nodes@[head as int],
                nodes@[0] == start,
                q <= edges@.len(),
                forall|a: int, b: int| 0 <= a < b < nodes@.len() ==> nodes@[a] != nodes@[b],
                forall|x: int| 0 <= x < nodes@.len() ==> reachable_kind(edges@, start, #[trigger] nodes@[x]),
                nodes@.len() <= edges@.len() + 1,
                nodes@.len() >= old_len,
                forall|x: int| 0 <= x < nodes@.len() ==> path_to(edges@, start, #[trigger] paths@[x]@, nodes@[x]),
                forall|x: int, m: int|
                    0 <= x < paths@.len() && 0 <= m < paths@[x]@.len() ==> nodes@.contains(#[trigger] paths@[x]@[m]),
                forall|q2: int, x: int|
                    0 <= q2 < edges@.len() && 0 <= x < head && #[trigger] edges@[q2].0 == #[trigger] nodes@[x]
                        ==> nodes@.contains(edges@[q2].1) && edges@[q2].1 != start,
                forall|q2: int|
                    0 <= q2 < q && #[trigger] edges@[q2].0 == u ==> nodes@.contains(edges@[q2].1)
                        && edges@[q2].1 != start,
            decreases edges@.len() - q,
        {
            if edges[q].0 == u {
                let v = edges[q].1;
                proof {
                    reveal(is_edge);
                    assert(edges@[q as int] == (u, v));
                    assert(is_edge(edges@, u, v));
                }
                if v == start {
                    let c = copy_path(&paths[head]);
                    proof {
                        assert(path_to(edges@, start, paths@[head as int]@, nodes@[head as int]));
                    }
                    return Some(c);
                }
                if !holds(&nodes, v) {
                    let ghost pu = paths@[head as int]@;
                    let mut pv = copy_path(&paths[head]);
                    pv.push(v);
                    proof {
                        assert(path_to(edges@, start, pu, u));
                        assert forall|a: int, b: int| 0 <= a < b < pv@.len() implies pv@[a] != pv@[b] by {
                            if b == pv@.len() - 1 {
                                assert(nodes@.contains(pu[a]));
                            }
                        }
                        assert forall|m: int| 0 <= m < pv@.len() - 1 implies is_edge(edges@, #[trigger] pv@[m], pv@[m + 1]) by {
                            if m < pv@.len() - 2 {
                                assert(pv@[m] == pu[m] && pv@[m + 1] == pu[m + 1]);
                            }
                        }
                    }
                    let ghost old_nodes = nodes@;
                    let ghost old_paths = paths@;
                    nodes.push(v);
                    paths.push(pv);
                    proof {
                        assert forall|x: int, m: int|
                            0 <= x < paths@.len() && 0 <= m < paths@[x]@.len() implies nodes@.contains(#[trigger] paths@[x]@[m]) by {
                            if x < old_paths.len() {
                                assert(paths@[x] == old_paths[x]);
                                assert(old_nodes.contains(old_paths[x]@[m]));
                                let y = choose|y: int| 0 <= y < old_nodes.len() && old_nodes[y] == old_paths[x]@[m];
                                assert(nodes@[y] == old_nodes[y]);
                            } else {
                                if m < pv@.len() - 1 {
                                    assert(old_nodes.contains(pu[m]));
                                    let y = choose|y: int| 0 <= y < old_nodes.len() && old_nodes[y] == pu[m];
                                    assert(nodes@[y] == old_nodes[y]);
                                } else {
                                    assert(nodes@[nodes@.len() - 1] == v);
                                }
                            }
                        }
                        assert forall|x: int| 0 <= x < nodes@.len() implies path_to(edges@, start, #[trigger] paths@[x]@, nodes@[x]) by {
                            if x < old_nodes.len() {
                                assert(paths@[x] == old_paths[x]);
                            }
                        }
                        assert forall|q2: int, x: int|
                            0 <= q2 < edges@.len() && 0 <= x < head && #[trigger] edges@[q2].0 == #[trigger] nodes@[x]
                                implies nodes@.contains(edges@[q2].1) && edges@[q2].1 != start by {
                            assert(nodes@[x] == old_nodes[x]);
                            assert(old_nodes.contains(edges@[q2].1));
                            let y = choose|y: int| 0 <= y < old_nodes.len() && old_nodes[y] == edges@[q2].1;
                            assert(nodes@[y] == old_nodes[y]);
                        }
                        assert forall|q2: int| 0 <= q2 < q && #[trigger] edges@[q2].0 == u implies nodes@.contains(
                            edges@[q2].1,
                        ) && edges@[q2].1 != start by {
                            assert(old_nodes.contains(edges@[q2].1));
                            let y = choose|y: int| 0 <= y < old_nodes.len() && old_nodes[y] == edges@[q2].1;
                            assert(nodes@[y] == old_nodes[y]);
                        }
                        assert(nodes@[nodes@.len() - 1] == v);
                        assert forall|a: int, b: int| 0 <= a < b < nodes@.len() implies nodes@[a] != nodes@[b] by {
                            if b == nodes@.len() - 1 {
                                assert(nodes@[a] == old_nodes[a]);
                            } else {
                                assert(nodes@[a] == old_nodes[a] && nodes@[b] == old_nodes[b]);
                            }
                        }
                        assert forall|x: int| 0 <= x < nodes@.len() implies reachable_kind(edges@, start, #[trigger] nodes@[x]) by {
                            if x < old_nodes.len() {
                                assert(nodes@[x] == old_nodes[x]);
                            } else {
                                assert(edges@[q as int].1 == nodes@[x]);
                            }
                        }
                        lemma_distinct_bound(nodes@, edges@, start);
                    }
                }
            }
            q = q + 1;
        }
        head = head + 1;
    }
    proof {
        assert(closed_from(edges@, nodes@, start)) by {
            reveal(is_edge);
            assert forall|a: TxId, b: TxId| nodes@.contains(a) && #[trigger] is_edge(edges@, a, b) implies nodes@.contains(b)
                && b != start by {
                let x = choose|x: int| 0 <= x < nodes@.len() && nodes@[x] == a;
                let q = choose|q: int| 0 <= q < edges@.len() && edges@[q] == (a, b);
                assert(edges@[q].0 == nodes@[x]);
            }
        }
        assert(nodes@.contains(start)) by {
            assert(nodes@[0] == start);
        }
        assert forall|c: Seq<TxId>| #[trigger] cycle_in(edges@, c) implies !c.contains(start) by {
            lemma_closed_no_cycle(edges@, nodes@, start, c);
        }
    }
    None
}

/// `t` is `start` or the target of a listed edge.
pub open spec fn reachable_kind(edges: Seq<(TxId, TxId)>, start: TxId, t: TxId) -> bool {
    t == start || exists|q: int| 0 <= q < edges.len() && edges[q].1 == t
}

/// Distinct nodes that are all `start` or targets of listed edges number at
/// most one more than the edges.
proof fn lemma_distinct_bound(nodes: Seq<TxId>, edges: Seq<(TxId, TxId)>, start: TxId)
    requires
        forall|a: int, b: int| 0 <= a < b < nodes.len() ==> nodes[a] != nodes[b],
        forall|x: int| 0 <= x < nodes.len() ==> reachable_kind(edges, start, #[trigger] nodes[x]),
    ensures
        nodes.len() <= edges.len() + 1,
{
    let u = edges.map_values(|e: (TxId, TxId)| e.1).push(start);
    assert(nodes.no_duplicates());
    nodes.unique_seq_to_set();
    u.lemma_cardinality_of_set();
    vstd::seq_lib::seq_to_set_is_finite(u);
    assert forall|t: TxId| nodes.to_set().contains(t) implies u.to_set().contains(t) by {
        let x = choose|x: int| 0 <= x < nodes.len() && nodes[x] == t;
        assert(reachable_kind(edges, start, nodes[x]));
        if t == start {
            assert(u[u.len() - 1] == t);
        } else {
            let q = choose|q: int| 0 <= q < edges.len() && edges[q].1 == t;
            assert(u[q] == t);
        }
    }
    vstd::set_lib::lemma_len_subset(nodes.to_set(), u.to_set());
}

proof fn lemma_release_compatible(holders: Seq<Grant>, tx: TxId)
    requires
        compatible(holders),
    ensures
        compatible(release(holders, tx)),
        all_shared(holders) ==> all_shared(release(holders, tx)),
        release(holders, tx).len() <= holders.len(),
        forall|k: int|
            0 <= k < release(holders, tx).len() ==> exists|m: int|
                0 <= m < holders.len() && #[trigger] release(holders, tx)[k] == holders[m],
    decreases holders.len(),
{
    if holders.len() > 0 {
        let init = holders.drop_last();
        assert(compatible(init)) by {
            assert forall|a: int, b: int|
                0 <= a < init.len() && 0 <= b < init.len() && a != b implies !conflicts(
                #[trigger] init[a].1,
                #[trigger] init[b].1,
            ) by {
                assert(init[a] == holders[a] && init[b] == holders[b]);
            }
        }
        lemma_release_compatible(init, tx);
        let rest = release(init, tx);
        if holders.last().0 != tx {
            let r = rest.push(holders.last());
            assert forall|k: int| 0 <= k < r.len() implies exists|m: int|
                0 <= m < holders.len() && #[trigger] r[k] == holders[m] by {
                if k == r.len() - 1 {
                    assert(r[k] == holders[holders.len() - 1]);
                } else {
                    let m = choose|m: int| 0 <= m < init.len() && rest[k] == init[m];
                    assert(r[k] == holders[m]);
                }
            }
            assert forall|a: int, b: int|
                0 <= a < r.len() && 0 <= b < r.len() && a != b implies !conflicts(
                #[trigger] r[a].1,
                #[trigger] r[b].1,
            ) by {
                if a == r.len() - 1 || b == r.len() - 1 {
                    let other = if a == r.len() - 1 { b } else { a };
                    let m = choose|m: int| 0 <= m < init.len() && rest[other] == init[m];
                    assert(holders[m] == r[other]);
                    assert(!conflicts(holders[m].1, holders[holders.len() - 1].1));
                }
            }
            if all_shared(holders) {
                assert forall|k: int| 0 <= k < r.len() implies (#[trigger] r[k]).1
                    == LockMode::Shared by {
                    let m = choose|m: int| 0 <= m < holders.len() && r[k] == holders[m];
                }
            }
        } else {
            if all_shared(holders) {
                assert(all_shared(init));
            }
        }
    }
}

proof fn lemma_grant_compatible(holders: Seq<Grant>, queue: Seq<Grant>)
    requires
        compatible(holders),
    ensures
        compatible(grant_waiters(holders, queue).0),
    decreases queue.len(),
{
    if queue.len() > 0 && grantable(holders, queue[0].1) {
        let h2 = holders.push(queue[0]);
        assert(compatible(h2)) by {
            if holders.len() > 0 {
                assert forall|a: int, b: int|
                    0 <= a < h2.len() && 0 <= b < h2.len() && a != b implies !conflicts(
                    #[trigger] h2[a].1,
                    #[trigger] h2[b].1,
                ) by {
                    assert(h2[a].1 == LockMode::Shared);
                    assert(h2[b].1 == LockMode::Shared);
                }
            }
        }
        if queue[0].1 != LockMode::Exclusive {
            lemma_grant_compatible(h2, queue.skip(1));
        }
    }
}

/// The holders other than `tx`, in order.
fn release_tx(holders: &Vec<Grant>, tx: TxId) -> (r: Vec<Grant>)
    ensures
        r@ == release(holders@, tx),
{
    let mut out: Vec<Grant> = Vec::new();
    let mut i: usize = 0;
    while i < holders.len()
        invariant
            i <= holders@.len(),
            out@ == release(holders@.take(i as int), tx),
        decreases holders@.len() - i,
    {
        assert(holders@.take(i + 1).drop_last() =~= holders@.take(i as int));
        if holders[i].0 != tx {
            out.push(holders[i]);
        }
        i = i + 1;
    }
    assert(holders@.take(i as int) =~= holders@);
    out
}

/// Grants waiters from the head of `queue` as `grant_waiters` says.
fn grant_from_queue(holders: Vec<Grant>, queue: Vec<Grant>) -> (r: (Vec<Grant>, Vec<Grant>, Vec<Grant>))
    ensures
        (r.0@, r.1@, r.2@) == grant_waiters(holders@, queue@),
{
    let mut holders = holders;
    let mut granted: Vec<Grant> = Vec::new();
    let mut start: usize = 0;
    let ghost h0 = holders@;
    let ghost q0 = queue@;
    proof {
        assert(q0.skip(0) =~= q0);
        assert forall|g: Seq<Grant>| Seq::<Grant>::empty() + g =~= g by {}
    }
    loop
        invariant_except_break
            ({
                let (h, q, g) = grant_waiters(holders@, queue@.skip(start as int));
                grant_waiters(h0, q0) == (h, q, granted@ + g)
            }),
        invariant
            start <= queue@.len(),
            queue@ == q0,
        ensures
            start <= queue@.len(),
            grant_waiters(h0, q0) == (holders@, queue@.skip(start as int), granted@),
        decreases queue@.len() - start,
    {
        if start >= queue.len() {
            assert(queue@.skip(start as int).len() == 0);
            assert(granted@ + Seq::<Grant>::empty() =~= granted@);
            break;
        }
        let head = queue[start];
        let mut all_s = true;
        let mut k: usize = 0;
        while k < holders.len()
            invariant
                k <= holders@.len(),
                all_s == forall|j: int| 0 <= j < k ==> (#[trigger] holders@[j]).1 == LockMode::Shared,
            decreases holders@.len() - k,
        {
            if holders[k].1 != LockMode::Shared {
                all_s = false;
            }
            k = k + 1;
        }
        let ghost rest = queue@.skip(start as int);
        assert(rest[0] == head);
        if !(holders.len() == 0 || (head.1 == LockMode::Shared && all_s)) {
            assert(!grantable(holders@, rest[0].1));
            assert(granted@ + Seq::<Grant>::empty() =~= granted@);
            break;
        }
        assert(rest.skip(1) =~= queue@.skip(start + 1));
        let ghost before = granted@;
        holders.push(head);
        granted.push(head);
        start = start + 1;
        if head.1 == LockMode::Exclusive {
            assert(granted@ =~= before + seq![head]);
            break;
        }
        assert forall|g: Seq<Grant>| before + (seq![head] + g) =~= granted@ + g by {}
    }
    let mut rest: Vec<Grant> = Vec::new();
    let mut k: usize = start;
    while k < queue.len()
        invariant
            start <= k <= queue@.len(),
            rest@ == queue@.subrange(start as int, k as int),
        decreases queue@.len() - k,
    {
        rest.push(queue[k]);
        k = k + 1;
        assert(rest@ =~= queue@.subrange(start as int, k as int));
    }
    assert(rest@ =~= queue@.skip(start as int));
    (holders, rest, granted)
}

/// Under the lock table's invariant no two transactions hold conflicting
/// modes on the same resource.
pub proof fn lemma_no_conflicting_holders(m: &LockManager, i: int, a: int, b: int)
    requires
        m.wf(),
        0 <= i < m.entries().len(),
        0 <= a < m.entries()[i].1.len(),
        0 <= b < m.entries()[i].1.len(),
        a != b,
    ensures
        !conflicts(m.entries()[i].1[a].1, m.entries()[i].1[b].1),
{
    assert(compatible(m.entries()[i].1));
}

} // verus!
