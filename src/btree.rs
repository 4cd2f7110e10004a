//! The node-level logic of the B+Tree index: where a key goes, which child
//! to descend to, and how a node takes a new entry or splits. Reading and
//! writing node pages is left to the caller.
use vstd::prelude::*;
use crate::record::RID;
use crate::binder::{BoundExpr, Value};
use crate::parser::BinaryOp;

verus! {

/// Keys strictly increasing.
pub open spec fn strictly_sorted(keys: Seq<u64>) -> bool {
    forall|i: int, j: int| 0 <= i < j < keys.len() ==> keys[i] < keys[j]
}

/// How many keys are below `key`.
pub open spec fn rank(keys: Seq<u64>, key: u64) -> int
    decreases keys.len(),
{
    if keys.len() == 0 {
        0
    } else {
        rank(keys.drop_last(), key) + if keys.last() < key { 1int } else { 0int }
    }
}

/// Why an index operation failed.
#[derive(Debug, Clone, Copy, PartialEq, Eq, Structural)]
pub enum IndexError {
    DuplicateKey,
    /// The split node is not a child of the parent given.
    ChildNotFound,
    /// The predicate is not a comparison with an integer literal.
    InvalidPredicate,
    /// The comparison is not `=`, `<` or `>`.
    UnsupportedOperator,
}

/// The keys an index scan visits.
#[derive(Debug, Clone, Copy, PartialEq, Eq, Structural)]
pub enum KeyRange {
    /// Exactly this key.
    Point(u64),
    /// Every key from the first to the second, both included.
    Between(u64, u64),
}

/// The integer literal on one side of a comparison (right side first), as
/// an index key.
pub open spec fn literal_key(left: BoundExpr, right: BoundExpr) -> Option<u64> {
    match (left, right) {
        (_, BoundExpr::Literal(Value::Int(v))) => Some(v as u64),
        (BoundExpr::Literal(Value::Int(v)), _) => Some(v as u64),
        _ => None,
    }
}

/// The key range a predicate selects: `= k` the key `k`, `< k` the keys
/// `0..=k-1` (none when `k` is 0), `> k` the keys `k+1..=MAX` (none when
/// `k` is the largest key).
pub open spec fn predicate_range(pred: BoundExpr) -> Result<Option<KeyRange>, IndexError> {
    match pred {
        BoundExpr::BinaryOp { left, op, right, .. } => match literal_key(*left, *right) {
            Some(k) => match op {
                BinaryOp::Eq => Ok(Some(KeyRange::Point(k))),
                BinaryOp::Lt => if k == 0 {
                    Ok(None)
                } else {
                    Ok(Some(KeyRange::Between(0, (k - 1) as u64)))
                },
                BinaryOp::Gt => if k == u64::MAX {
                    Ok(None)
                } else {
                    Ok(Some(KeyRange::Between((k + 1) as u64, u64::MAX)))
                },
                _ => Err(IndexError::UnsupportedOperator),
            },
            None => Err(IndexError::InvalidPredicate),
        },
        _ => Err(IndexError::InvalidPredicate),
    }
}

/// The key range an index scan with predicate `pred` visits; `None` when it
/// selects no key.
pub fn key_range(pred: &BoundExpr) -> (r: Result<Option<KeyRange>, IndexError>)
    ensures
        r == predicate_range(*pred),
{
    match pred {
        BoundExpr::BinaryOp { left, op, right, .. } => {
            let key: u64 = match (&**left, &**right) {
                (_, BoundExpr::Literal(Value::Int(v))) => *v as u64,
                (BoundExpr::Literal(Value::Int(v)), _) => *v as u64,
                _ => {
                    return Err(IndexError::InvalidPredicate);
                },
            };
            match op {
                BinaryOp::Eq => Ok(Some(KeyRange::Point(key))),
                BinaryOp::Lt => {
                    if key == 0 {
                        Ok(None)
                    } else {
                        Ok(Some(KeyRange::Between(0, key - 1)))
                    }
                },
                BinaryOp::Gt => {
                    if key == u64::MAX {
                        Ok(None)
                    } else {
                        Ok(Some(KeyRange::Between(key + 1, u64::MAX)))
                    }
                },
                _ => Err(IndexError::UnsupportedOperator),
            }
        },
        _ => Err(IndexError::InvalidPredicate),
    }
}

proof fn lemma_rank_sorted(keys: Seq<u64>, key: u64, i: int)
    requires
        strictly_sorted(keys),
        0 <= i <= keys.len(),
        forall|j: int| 0 <= j < i ==> keys[j] < key,
        i < keys.len() ==> keys[i] >= key,
    ensures
        rank(keys, key) == i,
    decreases keys.len(),
{
    if keys.len() > 0 {
        let init = keys.drop_last();
        if i == keys.len() {
            lemma_rank_sorted(init, key, i - 1);
        } else {
            assert(keys.last() >= key) by {
                if i < keys.len() - 1 {
                    assert(keys[i] < keys[keys.len() - 1]);
                }
            }
            lemma_rank_sorted(init, key, i);
        }
    }
}

/// Binary search: `Ok(i)` when `keys[i] == key`, otherwise `Err(i)` where
/// `i` is the number of keys below `key` (where `key` would be inserted).
pub fn search_keys(keys: &[u64], key: u64) -> (r: Result<usize, usize>)
    requires
        strictly_sorted(keys@),
    ensures
        r matches Ok(i) ==> i < keys@.len() && keys@[i as int] == key,
        r matches Err(i) ==> i <= keys@.len() && (forall|j: int|
            0 <= j < keys@.len() ==> keys@[j] != key),
        match r {
            Ok(i) => i == rank(keys@, key),
            Err(i) => i == rank(keys@, key),
        },
{
    let mut lo: usize = 0;
    let mut hi: usize = keys.len();
    while lo < hi
        invariant
            lo <= hi <= keys@.len(),
            strictly_sorted(keys@),
            forall|j: int| 0 <= j < lo ==> keys@[j] < key,
            forall|j: int| hi <= j < keys@.len() ==> keys@[j] > key,
        decreases hi - lo,
    {
        let mid = lo + (hi - lo) / 2;
        if keys[mid] == key {
            proof {
                lemma_rank_sorted(keys@, key, mid as int);
            }
            return Ok(mid);
        } else if keys[mid] < key {
            lo = mid + 1;
        } else {
            hi = mid;
        }
    }
    proof {
        lemma_rank_sorted(keys@, key, lo as int);
    }
    Err(lo)
}

/// The child of an internal node to descend to for `key`: past every key
/// at most `key`.
pub fn child_index(keys: &[u64], key: u64) -> (r: usize)
    requires
        strictly_sorted(keys@),
    ensures
        r <= keys@.len(),
        forall|j: int| 0 <= j < r ==> keys@[j] <= key,
        forall|j: int| r <= j < keys@.len() ==> keys@[j] > key,
{
    let _n = keys.len();
    match search_keys(keys, key) {
        Ok(i) => i + 1,
        Err(i) => {
            proof {
                assert forall|j: int| 0 <= j < keys@.len() implies (j < i ==> keys@[j] <= key) && (
                j >= i ==> keys@[j] > key) by {
                    if j < i && keys@[j] > key {
                        lemma_rank_upper(keys@, key, j);
                    }
                    if j >= i && keys@[j] < key {
                        lemma_rank_lower(keys@, key, j);
                    }
                }
            }
            i
        },
    }
}

proof fn lemma_rank_upper(keys: Seq<u64>, key: u64, j: int)
    requires
        strictly_sorted(keys),
        0 <= j < keys.len(),
        keys[j] > key,
    ensures
        rank(keys, key) <= j,
    decreases keys.len(),
{
    if keys.len() - 1 > j {
        assert(keys.last() > key) by {
            assert(keys[j] < keys[keys.len() - 1]);
        }
        lemma_rank_upper(keys.drop_last(), key, j);
    } else {
        lemma_rank_bound(keys.drop_last(), key);
    }
}

proof fn lemma_rank_lower(keys: Seq<u64>, key: u64, j: int)
    requires
        strictly_sorted(keys),
        0 <= j < keys.len(),
        keys[j] < key,
    ensures
        rank(keys, key) > j,
    decreases keys.len(),
{
    if keys.len() - 1 > j {
        lemma_rank_lower(keys.drop_last(), key, j);
    } else {
        assert forall|k: int| 0 <= k < j implies keys[k] < key by {}
        lemma_rank_sorted(keys, key, j + 1);
    }
}

proof fn lemma_rank_bound(keys: Seq<u64>, key: u64)
    ensures
        0 <= rank(keys, key) <= keys.len(),
    decreases keys.len(),
{
    if keys.len() > 0 {
        lemma_rank_bound(keys.drop_last(), key);
    }
}

/// What a node becomes when it takes an entry: itself with the entry, or,
/// past the order, a left part it keeps and a right part for a new node.
pub enum LeafInsert {
    Fits { keys: Vec<u64>, rids: Vec<RID> },
    Split {
        left_keys: Vec<u64>,
        left_rids: Vec<RID>,
        right_keys: Vec<u64>,
        right_rids: Vec<RID>,
        /// The first key of the right part, copied up to the parent.
        split_key: u64,
    },
}

/// Inserts `(key, rid)` into a leaf in key order. A leaf with more than
/// `order` keys splits at `(count + 1) / 2`; the right part's first key is
/// copied up. A key already present is refused.
pub fn leaf_insert(keys: Vec<u64>, rids: Vec<RID>, key: u64, rid: RID, order: usize) -> (r: Result<LeafInsert, IndexError>)
    requires
        strictly_sorted(keys@),
        rids@.len() == keys@.len(),
        keys@.len() + 2 < usize::MAX,
        order >= 1,
    ensures
        keys@.contains(key) <==> r == Err::<LeafInsert, IndexError>(IndexError::DuplicateKey),
        !keys@.contains(key) ==> r is Ok,
        r is Ok ==> ({
            let p = rank(keys@, key);
            let all_keys = keys@.insert(p, key);
            let all_rids = rids@.insert(p, rid);
            &&& strictly_sorted(all_keys)
            &&& match r->Ok_0 {
                LeafInsert::Fits { keys: k, rids: rs } => all_keys.len() <= order && k@ == all_keys
                    && rs@ == all_rids,
                LeafInsert::Split { left_keys, left_rids, right_keys, right_rids, split_key } => {
                    let mid = ((all_keys.len() + 1) / 2) as int;
                    &&& all_keys.len() > order
                    &&& left_keys@ == all_keys.take(mid)
                    &&& left_rids@ == all_rids.take(mid)
                    &&& right_keys@ == all_keys.skip(mid)
                    &&& right_rids@ == all_rids.skip(mid)
                    &&& right_keys@.len() > 0
                    &&& split_key == right_keys@[0]
                },
            }
        }),
{
    let mut keys = keys;
    let mut rids = rids;
    let ghost k0 = keys@;
    let ghost r0 = rids@;
    let idx = match search_keys(keys.as_slice(), key) {
        Ok(_) => {
            return Err(IndexError::DuplicateKey);
        },
        Err(i) => i,
    };
    proof {
        if k0.contains(key) {
            let j = choose|j: int| 0 <= j < k0.len() && k0[j] == key;
        }
        lemma_insert_sorted(k0, key, idx as int);
    }
    keys.insert(idx, key);
    rids.insert(idx, rid);
    if keys.len() <= order {
        return Ok(LeafInsert::Fits { keys, rids });
    }
    let mid = (keys.len() + 1) / 2;
    let right_keys = keys.split_off(mid);
    let right_rids = rids.split_off(mid);
    let split_key = right_keys[0];
    Ok(LeafInsert::Split { left_keys: keys, left_rids: rids, right_keys, right_rids, split_key })
}

proof fn lemma_insert_sorted(keys: Seq<u64>, key: u64, p: int)
    requires
        strictly_sorted(keys),
        0 <= p <= keys.len(),
        p == rank(keys, key),
        forall|j: int| 0 <= j < keys.len() ==> keys[j] != key,
    ensures
        strictly_sorted(keys.insert(p, key)),
{
    let s = keys.insert(p, key);
    assert forall|a: int, b: int| 0 <= a < b < s.len() implies s[a] < s[b] by {
        if a < p && b == p {
            if keys[a] > key {
                lemma_rank_upper(keys, key, a);
            }
        } else if a == p && b > p {
            if keys[b - 1] < key {
                lemma_rank_lower(keys, key, b - 1);
            }
        }
    }
}

/// A leaf's keys and record ids after inserting `keys[i]` with `rids[i]`,
/// one after the other, each at its rank, into an empty leaf (no split).
pub open spec fn leaf_after_inserts(keys: Seq<u64>, rids: Seq<RID>) -> (Seq<u64>, Seq<RID>)
    decreases keys.len(),
{
    if keys.len() == 0 || rids.len() == 0 {
        (Seq::empty(), Seq::empty())
    } else {
        let (k, r) = leaf_after_inserts(keys.drop_last(), rids.drop_last());
        let p = rank(k, keys.last());
        (k.insert(p, keys.last()), r.insert(p, rids.last()))
    }
}

/// `key` is stored in the leaf `(k, r)` with record id `rid`.
#[verifier::opaque]
pub open spec fn stored(k: Seq<u64>, r: Seq<RID>, key: u64, rid: RID) -> bool {
    exists|j: int| 0 <= j < k.len() && k[j] == key && r[j] == rid
}

/// `x` is one of `keys`.
#[verifier::opaque]
pub open spec fn among(keys: Seq<u64>, x: u64) -> bool {
    exists|i: int| 0 <= i < keys.len() && keys[i] == x
}

/// Inserting distinct keys one by one into a leaf that does not split keeps
/// its keys strictly ascending, holds exactly the inserted keys, and pairs
/// each key with the record id it was inserted with.
#[verifier::rlimit(50)]
pub proof fn lemma_leaf_inserts_found(keys: Seq<u64>, rids: Seq<RID>)
    requires
        rids.len() == keys.len(),
        forall|a: int, b: int| 0 <= a < b < keys.len() ==> keys[a] != keys[b],
    ensures
        strictly_sorted(leaf_after_inserts(keys, rids).0),
        leaf_after_inserts(keys, rids).0.len() == keys.len(),
        leaf_after_inserts(keys, rids).1.len() == keys.len(),
        forall|i: int|
            0 <= i < keys.len() ==> stored(
                leaf_after_inserts(keys, rids).0,
                leaf_after_inserts(keys, rids).1,
                #[trigger] keys[i],
                rids[i],
            ),
        forall|j: int|
            0 <= j < keys.len() ==> among(keys, #[trigger] leaf_after_inserts(keys, rids).0[j]),
    decreases keys.len(),
{
    if keys.len() > 0 {
        let ik = keys.drop_last();
        let ir = rids.drop_last();
        assert forall|a: int, b: int| 0 <= a < b < ik.len() implies ik[a] != ik[b] by {
            assert(ik[a] == keys[a] && ik[b] == keys[b]);
        }
        lemma_leaf_inserts_found(ik, ir);
        let k = leaf_after_inserts(ik, ir).0;
        let r = leaf_after_inserts(ik, ir).1;
        let x = keys.last();
        let p = rank(k, x);
        lemma_rank_bound(k, x);
        assert forall|j: int| 0 <= j < k.len() implies k[j] != x by {
            assert(among(ik, k[j]));
            reveal(among);
            let i = choose|i: int| 0 <= i < ik.len() && ik[i] == k[j];
            assert(ik[i] == keys[i]);
        }
        lemma_insert_sorted(k, x, p);
        let k2 = k.insert(p, x);
        let r2 = r.insert(p, rids.last());
        assert(leaf_after_inserts(keys, rids).0 == k2);
        assert(leaf_after_inserts(keys, rids).1 == r2);
        assert forall|i: int| 0 <= i < keys.len() implies stored(k2, r2, #[trigger] keys[i], rids[i]) by {
            reveal(stored);
            if i == keys.len() - 1 {
                assert(k2[p] == keys[i] && r2[p] == rids[i]);
            } else {
                assert(ik[i] == keys[i] && ir[i] == rids[i]);
                assert(stored(k, r, ik[i], ir[i]));
                let j = choose|j: int| 0 <= j < k.len() && k[j] == ik[i] && r[j] == ir[i];
                if j < p {
                    assert(k2[j] == keys[i] && r2[j] == rids[i]);
                } else {
                    assert(k2[j + 1] == keys[i] && r2[j + 1] == rids[i]);
                }
            }
        }
        assert forall|j: int| 0 <= j < keys.len() implies among(keys, #[trigger] k2[j]) by {
            reveal(among);
            if j == p {
                assert(keys[keys.len() - 1] == k2[j]);
            } else {
                let jj = if j < p { j } else { j - 1 };
                assert(k2[j] == k[jj]);
                assert(among(ik, k[jj]));
                let i = choose|i: int| 0 <= i < ik.len() && ik[i] == k[jj];
                assert(keys[i] == k2[j]);
            }
        }
    }
}

/// What an internal node becomes when it takes a separator and a new child.
pub enum InternalInsert {
    Fits { keys: Vec<u64>, children: Vec<u64> },
    Split {
        left_keys: Vec<u64>,
        left_children: Vec<u64>,
        right_keys: Vec<u64>,
        right_children: Vec<u64>,
        /// The middle key, moved up to the parent and kept in neither part.
        promote_key: u64,
    },
}

/// Puts `split_key` and `right_page` into an internal node just after the
/// child `left_page`. A node with more than `order` keys splits at
/// `count / 2`: the middle key moves up, the left part keeps the keys before
/// it and one child more, the right part takes the rest.
pub fn internal_insert(
    keys: Vec<u64>,
    children: Vec<u64>,
    left_page: u64,
    split_key: u64,
    right_page: u64,
    order: usize,
) -> (r: Result<InternalInsert, IndexError>)
    requires
        children@.len() == keys@.len() + 1,
        keys@.len() + 1 < usize::MAX,
    ensures
        keys@.contains(split_key) ==> r == Err::<InternalInsert, IndexError>(
            IndexError::DuplicateKey,
        ),
        !keys@.contains(split_key) && !children@.contains(left_page) ==> r
            == Err::<InternalInsert, IndexError>(IndexError::ChildNotFound),
        !keys@.contains(split_key) && children@.contains(left_page) ==> r is Ok,
        r is Ok ==> ({
            let c = choose|c: int|
                0 <= c < children@.len() && children@[c] == left_page && forall|d: int|
                    0 <= d < c ==> children@[d] != left_page;
            let all_keys = keys@.insert(c, split_key);
            let all_children = children@.insert(c + 1, right_page);
            match r->Ok_0 {
                InternalInsert::Fits { keys: k, children: ch } => all_keys.len() <= order && k@
                    == all_keys && ch@ == all_children,
                InternalInsert::Split {
                    left_keys,
                    left_children,
                    right_keys,
                    right_children,
                    promote_key,
                } => {
                    let mid = (all_keys.len() / 2) as int;
                    &&& all_keys.len() > order
                    &&& promote_key == all_keys[mid]
                    &&& left_keys@ == all_keys.take(mid)
                    &&& left_children@ == all_children.take(mid + 1)
                    &&& right_keys@ == all_keys.skip(mid + 1)
                    &&& right_children@ == all_children.skip(mid + 1)
                },
            }
        }),
{
    let ghost k0 = keys@;
    let ghost c0 = children@;
    let mut i: usize = 0;
    while i < keys.len()
        invariant
            i <= keys@.len(),
            keys@ == k0,
            forall|j: int| 0 <= j < i ==> k0[j] != split_key,
        decreases keys@.len() - i,
    {
        if keys[i] == split_key {
            assert(k0[i as int] == split_key);
            return Err(IndexError::DuplicateKey);
        }
        i = i + 1;
    }
    let mut c: usize = 0;
    while c < children.len()
        invariant
            c <= children@.len(),
            children@ == c0,
            forall|d: int| 0 <= d < c ==> c0[d] != left_page,
        ensures
            c <= children@.len(),
            children@ == c0,
            forall|d: int| 0 <= d < c ==> c0[d] != left_page,
            c < children@.len() ==> c0[c as int] == left_page,
        decreases children@.len() - c,
    {
        if children[c] == left_page {
            break;
        }
        c = c + 1;
    }
    if c >= children.len() {
        assert(!c0.contains(left_page));
        return Err(IndexError::ChildNotFound);
    }
    assert(c0[c as int] == left_page);
    let mut keys = keys;
    let mut children = children;
    proof {
        let cc = choose|cc: int|
            0 <= cc < c0.len() && c0[cc] == left_page && forall|d: int|
                0 <= d < cc ==> c0[d] != left_page;
        assert(cc == c) by {
            if cc < c {
            } else if cc > c {
                assert(c0[c as int] == left_page);
            }
        }
    }
    keys.insert(c, split_key);
    children.insert(c + 1, right_page);
    if keys.len() <= order {
        return Ok(InternalInsert::Fits { keys, children });
    }
    let mid = keys.len() / 2;
    let promote_key = keys[mid];
    let right_keys = keys.split_off(mid + 1);
    let right_children = children.split_off(mid + 1);
    keys.truncate(mid);
    Ok(
        InternalInsert::Split {
            left_keys: keys,
            left_children: children,
            right_keys,
            right_children,
            promote_key,
        },
    )
}

/// The record id stored under `key` in a leaf.
pub fn leaf_lookup(keys: &[u64], rids: &[RID], key: u64) -> (r: Option<RID>)
    requires
        rids@.len() == keys@.len(),
    ensures
        r matches Some(rid) ==> exists|i: int|
            0 <= i < keys@.len() && keys@[i] == key && rids@[i] == rid && forall|j: int|
                0 <= j < i ==> keys@[j] != key,
        r is None <==> !keys@.contains(key),
{
    let mut i: usize = 0;
    while i < keys.len()
        invariant
            i <= keys@.len(),
            rids@.len() == keys@.len(),
            forall|j: int| 0 <= j < i ==> keys@[j] != key,
        decreases keys@.len() - i,
    {
        if keys[i] == key {
            return Some(rids[i]);
        }
        i = i + 1;
    }
    None
}

/// The entries of a leaf with `lo <= key <= hi`, in key order, and whether
/// the scan goes on to the next leaf (no key of this leaf exceeds `hi`).
pub fn leaf_range(keys: &[u64], rids: &[RID], lo: u64, hi: u64) -> (r: (Vec<(u64, RID)>, bool))
    requires
        rids@.len() == keys@.len(),
        strictly_sorted(keys@),
    ensures
        r.0@ == in_range(keys@, rids@, lo, hi),
        r.1 == forall|j: int| 0 <= j < keys@.len() ==> keys@[j] <= hi,
{
    let mut out: Vec<(u64, RID)> = Vec::new();
    let mut i: usize = 0;
    while i < keys.len()
        invariant
            i <= keys@.len(),
            rids@.len() == keys@.len(),
            strictly_sorted(keys@),
            forall|j: int| 0 <= j < i ==> keys@[j] <= hi,
            out@ == in_range(keys@.take(i as int), rids@.take(i as int), lo, hi),
        decreases keys@.len() - i,
    {
        assert(keys@.take(i + 1).drop_last() =~= keys@.take(i as int));
        assert(rids@.take(i + 1).drop_last() =~= rids@.take(i as int));
        if keys[i] > hi {
            proof {
                lemma_in_range_rest(keys@, rids@, lo, hi, i as int);
                assert forall|j: int| i <= j < keys@.len() implies keys@[j] > hi by {
                    if j > i {
                        assert(keys@[i as int] < keys@[j]);
                    }
                }
            }
            return (out, false);
        }
        if keys[i] >= lo {
            out.push((keys[i], rids[i]));
        }
        i = i + 1;
    }
    assert(keys@.take(i as int) =~= keys@);
    assert(rids@.take(i as int) =~= rids@);
    (out, true)
}

/// The entries with `lo <= key <= hi`, in order.
pub open spec fn in_range(keys: Seq<u64>, rids: Seq<RID>, lo: u64, hi: u64) -> Seq<(u64, RID)>
    decreases keys.len(),
{
    if keys.len() == 0 || rids.len() == 0 {
        Seq::empty()
    } else {
        let rest = in_range(keys.drop_last(), rids.drop_last(), lo, hi);
        if lo <= keys.last() <= hi {
            rest.push((keys.last(), rids.last()))
        } else {
            rest
        }
    }
}

/// Keys past the first one above `hi` add nothing to the range.
proof fn lemma_in_range_rest(keys: Seq<u64>, rids: Seq<RID>, lo: u64, hi: u64, i: int)
    requires
        strictly_sorted(keys),
        rids.len() == keys.len(),
        0 <= i < keys.len(),
        keys[i] > hi,
    ensures
        in_range(keys, rids, lo, hi) == in_range(keys.take(i), rids.take(i), lo, hi),
    decreases keys.len(),
{
    if keys.len() - 1 > i {
        assert(keys.last() > hi) by {
            assert(keys[i] < keys[keys.len() - 1]);
        }
        assert(keys.drop_last().take(i) =~= keys.take(i));
        assert(rids.drop_last().take(i) =~= rids.take(i));
        lemma_in_range_rest(keys.drop_last(), rids.drop_last(), lo, hi, i);
    } else {
        assert(keys.drop_last() =~= keys.take(i));
        assert(rids.drop_last() =~= rids.take(i));
    }
}

} // verus!
