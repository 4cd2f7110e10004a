//! Page images of B+Tree nodes.
//!
//! Header: `node_type: u8` (Internal = 0, Leaf = 1), `key_count: u16`,
//! `parent: u64`. An internal node continues with its keys and then its
//! children, all `u64`; a leaf with its keys, then its record ids
//! `(u64, u16)`, then the next leaf's page number. The rest of the page is
//! zero.
use vstd::prelude::*;
use crate::bytes::{
    le_u16, le_u64, lemma_u16_at_concat, lemma_u16_at_prefix, lemma_u16_round_trip,
    lemma_u64_at_concat, lemma_u64_at_prefix, lemma_u64_round_trip, push_u16, push_u64, read_u16,
    read_u64, u16_at, u64_at,
};

verus! {

#[derive(Debug, Clone, Copy, PartialEq, Eq, Structural)]
pub enum NodeType {
    Internal,
    Leaf,
}

#[derive(Debug, Clone, Copy, PartialEq, Eq, Structural)]
pub struct NodeHeader {
    pub node_type: NodeType,
    pub key_count: u16,
    pub parent: u64,
}

/// Why a page could not be read as a node.
#[derive(Debug, Clone, Copy, PartialEq, Eq, Structural)]
pub enum NodeError {
    /// The first byte is neither 0 nor 1.
    InvalidNodeType,
    /// The page holds the other kind of node.
    UnexpectedNodeType,
    /// The page is shorter than its key count asks for.
    Truncated,
}

pub const HEADER_SIZE: usize = 11;

pub open spec fn node_type_byte(t: NodeType) -> u8 {
    match t {
        NodeType::Internal => 0,
        NodeType::Leaf => 1,
    }
}

pub open spec fn header_bytes(h: NodeHeader) -> Seq<u8> {
    seq![node_type_byte(h.node_type)] + le_u16(h.key_count) + le_u64(h.parent)
}

/// The header stored at the start of `b`, if its type byte is valid.
pub open spec fn header_of(b: Seq<u8>) -> Option<NodeHeader> {
    if b.len() >= 11 && (b[0] == 0 || b[0] == 1) {
        Some(
            NodeHeader {
                node_type: if b[0] == 0 {
                    NodeType::Internal
                } else {
                    NodeType::Leaf
                },
                key_count: u16_at(b, 1),
                parent: u64_at(b, 3),
            },
        )
    } else {
        None
    }
}

/// The keys (or children) one after the other, eight bytes each.
pub open spec fn u64s_bytes(s: Seq<u64>) -> Seq<u8>
    decreases s.len(),
{
    if s.len() == 0 {
        Seq::empty()
    } else {
        u64s_bytes(s.drop_last()) + le_u64(s.last())
    }
}

/// Record ids one after the other, ten bytes each.
pub open spec fn rids_bytes(s: Seq<(u64, u16)>) -> Seq<u8>
    decreases s.len(),
{
    if s.len() == 0 {
        Seq::empty()
    } else {
        rids_bytes(s.drop_last()) + le_u64(s.last().0) + le_u16(s.last().1)
    }
}

pub open spec fn zeros(n: nat) -> Seq<u8> {
    Seq::new(n, |i: int| 0u8)
}

pub open spec fn internal_size(n_keys: nat, n_children: nat) -> nat {
    11 + 8 * n_keys + 8 * n_children
}

pub open spec fn leaf_size(n_keys: nat, n_rids: nat) -> nat {
    11 + 8 * n_keys + 10 * n_rids + 8
}

/// The page image of an internal node.
pub open spec fn internal_image(h: NodeHeader, keys: Seq<u64>, children: Seq<u64>, page_size: nat) -> Seq<u8> {
    let body = header_bytes(h) + u64s_bytes(keys) + u64s_bytes(children);
    body + zeros((page_size - body.len()) as nat)
}

/// The page image of a leaf.
pub open spec fn leaf_image(
    h: NodeHeader,
    keys: Seq<u64>,
    rids: Seq<(u64, u16)>,
    next_leaf: u64,
    page_size: nat,
) -> Seq<u8> {
    let body = header_bytes(h) + u64s_bytes(keys) + rids_bytes(rids) + le_u64(next_leaf);
    body + zeros((page_size - body.len()) as nat)
}

/// What a page holds when read as an internal node.
pub open spec fn internal_decode(b: Seq<u8>) -> Option<(NodeHeader, Seq<u64>, Seq<u64>)> {
    match header_of(b) {
        Some(h) => {
            let k = h.key_count as int;
            if h.node_type == NodeType::Internal && b.len() >= 11 + 8 * k + 8 * (k + 1) {
                Some(
                    (
                        h,
                        Seq::new(k as nat, |i: int| u64_at(b, 11 + 8 * i)),
                        Seq::new((k + 1) as nat, |i: int| u64_at(b, 11 + 8 * k + 8 * i)),
                    ),
                )
            } else {
                None
            }
        },
        None => None,
    }
}

/// What a page holds when read as a leaf.
pub open spec fn leaf_decode(b: Seq<u8>) -> Option<(NodeHeader, Seq<u64>, Seq<(u64, u16)>, u64)> {
    match header_of(b) {
        Some(h) => {
            let k = h.key_count as int;
            if h.node_type == NodeType::Leaf && b.len() >= 11 + 8 * k + 10 * k + 8 {
                Some(
                    (
                        h,
                        Seq::new(k as nat, |i: int| u64_at(b, 11 + 8 * i)),
                        Seq::new(
                            k as nat,
                            |i: int|
                                (u64_at(b, 11 + 8 * k + 10 * i), u16_at(b, 11 + 8 * k + 10 * i + 8)),
                        ),
                        u64_at(b, 11 + 18 * k),
                    ),
                )
            } else {
                None
            }
        },
        None => None,
    }
}

proof fn lemma_u64s_bytes(s: Seq<u64>)
    ensures
        u64s_bytes(s).len() == 8 * s.len(),
        forall|i: int| 0 <= i < s.len() ==> #[trigger] u64_at(u64s_bytes(s), 8 * i) == s[i],
    decreases s.len(),
{
    if s.len() > 0 {
        let init = s.drop_last();
        lemma_u64s_bytes(init);
        lemma_u64_round_trip(s.last());
        lemma_u64_at_concat(u64s_bytes(init), le_u64(s.last()), 0);
        assert forall|i: int| 0 <= i < s.len() implies #[trigger] u64_at(u64s_bytes(s), 8 * i)
            == s[i] by {
            if i < s.len() - 1 {
                lemma_u64_at_prefix(u64s_bytes(init), le_u64(s.last()), 8 * i);
                assert(u64_at(u64s_bytes(init), 8 * i) == init[i]);
            }
        }
    }
}

proof fn lemma_rids_bytes(s: Seq<(u64, u16)>)
    ensures
        rids_bytes(s).len() == 10 * s.len(),
        forall|i: int|
            0 <= i < s.len() ==> #[trigger] u64_at(rids_bytes(s), 10 * i) == s[i].0 && u16_at(
                rids_bytes(s),
                10 * i + 8,
            ) == s[i].1,
    decreases s.len(),
{
    if s.len() > 0 {
        let init = s.drop_last();
        let a = rids_bytes(init);
        let b = le_u64(s.last().0) + le_u16(s.last().1);
        lemma_rids_bytes(init);
        assert(rids_bytes(s) =~= a + b);
        lemma_u64_round_trip(s.last().0);
        lemma_u16_round_trip(s.last().1);
        lemma_u64_at_prefix(le_u64(s.last().0), le_u16(s.last().1), 0);
        lemma_u16_at_concat(le_u64(s.last().0), le_u16(s.last().1), 0);
        lemma_u64_at_concat(a, b, 0);
        lemma_u16_at_concat(a, b, 8);
        assert forall|i: int| 0 <= i < s.len() implies #[trigger] u64_at(rids_bytes(s), 10 * i)
            == s[i].0 && u16_at(rids_bytes(s), 10 * i + 8) == s[i].1 by {
            if i < s.len() - 1 {
                lemma_u64_at_prefix(a, b, 10 * i);
                lemma_u16_at_prefix(a, b, 10 * i + 8);
                assert(u64_at(a, 10 * i) == init[i].0);
            }
        }
    }
}

/// Reading the `u64`s of a run placed between two other byte sequences.
proof fn lemma_read_u64s(pre: Seq<u8>, s: Seq<u64>, post: Seq<u8>)
    ensures
        forall|i: int|
            0 <= i < s.len() ==> #[trigger] u64_at(pre + u64s_bytes(s) + post, pre.len() + 8 * i)
                == s[i],
{
    lemma_u64s_bytes(s);
    assert forall|i: int| 0 <= i < s.len() implies #[trigger] u64_at(
        pre + u64s_bytes(s) + post,
        pre.len() + 8 * i,
    ) == s[i] by {
        assert(pre + u64s_bytes(s) + post =~= pre + (u64s_bytes(s) + post));
        lemma_u64_at_concat(pre, u64s_bytes(s) + post, 8 * i);
        lemma_u64_at_prefix(u64s_bytes(s), post, 8 * i);
    }
}

/// Reading the record ids of a run placed between two other byte sequences.
proof fn lemma_read_rids(pre: Seq<u8>, s: Seq<(u64, u16)>, post: Seq<u8>)
    ensures
        forall|i: int|
            0 <= i < s.len() ==> #[trigger] u64_at(pre + (rids_bytes(s) + post), pre.len() + 10 * i)
                == s[i].0 && u16_at(pre + (rids_bytes(s) + post), pre.len() + 10 * i + 8) == s[i].1,
{
    lemma_rids_bytes(s);
    let rb = rids_bytes(s);
    assert forall|i: int| 0 <= i < s.len() implies #[trigger] u64_at(
        pre + (rb + post),
        pre.len() + 10 * i,
    ) == s[i].0 && u16_at(pre + (rb + post), pre.len() + 10 * i + 8) == s[i].1 by {
        lemma_u64_at_concat(pre, rb + post, 10 * i);
        lemma_u16_at_concat(pre, rb + post, 10 * i + 8);
        lemma_u64_at_prefix(rb, post, 10 * i);
        lemma_u16_at_prefix(rb, post, 10 * i + 8);
        assert(u64_at(rb, 10 * i) == s[i].0);
    }
}

proof fn lemma_header_round_trip(h: NodeHeader, rest: Seq<u8>)
    ensures
        header_of(header_bytes(h) + rest) == Some(h),
{
    let b = header_bytes(h) + rest;
    let t = seq![node_type_byte(h.node_type)];
    lemma_u16_round_trip(h.key_count);
    lemma_u64_round_trip(h.parent);
    assert(b =~= t + (le_u16(h.key_count) + (le_u64(h.parent) + rest)));
    lemma_u16_at_concat(t, le_u16(h.key_count) + (le_u64(h.parent) + rest), 0);
    lemma_u16_at_prefix(le_u16(h.key_count), le_u64(h.parent) + rest, 0);
    assert(b =~= (t + le_u16(h.key_count)) + (le_u64(h.parent) + rest));
    lemma_u64_at_concat(t + le_u16(h.key_count), le_u64(h.parent) + rest, 0);
    lemma_u64_at_prefix(le_u64(h.parent), rest, 0);
}

/// An internal node reads back as what was written: header, keys and
/// children, when the header counts the keys, there is one child more than
/// keys, the count stays within the order and the node fits in the page.
pub proof fn lemma_internal_round_trip(
    h: NodeHeader,
    keys: Seq<u64>,
    children: Seq<u64>,
    order: nat,
    page_size: nat,
)
    requires
        h.node_type == NodeType::Internal,
        h.key_count == keys.len(),
        keys.len() <= order,
        children.len() == keys.len() + 1,
        internal_size(keys.len(), children.len()) <= page_size,
    ensures
        internal_decode(internal_image(h, keys, children, page_size)) == Some((h, keys, children)),
{
    let hb = header_bytes(h);
    let kb = u64s_bytes(keys);
    let cb = u64s_bytes(children);
    lemma_u64s_bytes(keys);
    lemma_u64s_bytes(children);
    let body = hb + kb + cb;
    let z = zeros((page_size - body.len()) as nat);
    let b = internal_image(h, keys, children, page_size);
    assert(b == body + z);
    assert(b =~= hb + (kb + cb + z));
    lemma_header_round_trip(h, kb + cb + z);
    lemma_read_u64s(hb, keys, cb + z);
    assert(hb + kb + (cb + z) =~= b);
    lemma_read_u64s(hb + kb, children, z);
    let k = keys.len() as int;
    let (dh, dk, dc) = internal_decode(b).unwrap();
    assert(dk =~= keys);
    assert forall|i: int| 0 <= i < children.len() implies dc[i] == children[i] by {
        assert(11 + 8 * k + 8 * i == (hb + kb).len() + 8 * i);
    }
    assert(dc =~= children);
}

/// A leaf reads back as what was written: header, keys, record ids and next
/// leaf, when the header counts the keys, there is one record id per key,
/// the count stays within the order and the node fits in the page.
pub proof fn lemma_leaf_round_trip(
    h: NodeHeader,
    keys: Seq<u64>,
    rids: Seq<(u64, u16)>,
    next_leaf: u64,
    order: nat,
    page_size: nat,
)
    requires
        h.node_type == NodeType::Leaf,
        h.key_count == keys.len(),
        keys.len() <= order,
        rids.len() == keys.len(),
        leaf_size(keys.len(), rids.len()) <= page_size,
    ensures
        leaf_decode(leaf_image(h, keys, rids, next_leaf, page_size)) == Some(
            (h, keys, rids, next_leaf),
        ),
{
    let hb = header_bytes(h);
    let kb = u64s_bytes(keys);
    let rb = rids_bytes(rids);
    let nb = le_u64(next_leaf);
    lemma_u64s_bytes(keys);
    lemma_rids_bytes(rids);
    let body = hb + kb + rb + nb;
    let z = zeros((page_size - body.len()) as nat);
    let b = leaf_image(h, keys, rids, next_leaf, page_size);
    assert(b == body + z);
    assert(b =~= hb + (kb + rb + nb + z));
    lemma_header_round_trip(h, kb + rb + nb + z);
    lemma_read_u64s(hb, keys, rb + nb + z);
    assert(hb + kb + (rb + nb + z) =~= b);
    let k = keys.len() as int;
    let pre = hb + kb;
    assert(b =~= pre + (rb + (nb + z)));
    lemma_read_rids(pre, rids, nb + z);
    assert(b =~= (pre + rb) + (nb + z));
    lemma_u64_round_trip(next_leaf);
    lemma_u64_at_concat(pre + rb, nb + z, 0);
    lemma_u64_at_prefix(nb, z, 0);
    let (dh, dk, dr, dn) = leaf_decode(b).unwrap();
    assert(dk =~= keys);
    assert(dr =~= rids);
}

impl NodeHeader {
    pub const SIZE: usize = 11;

    /// Writes the header into the first eleven bytes of `buf`.
    pub fn serialize(&self, buf: &mut Vec<u8>)
        requires
            old(buf)@.len() >= 11,
        ensures
            final(buf)@ == header_bytes(*self) + old(buf)@.skip(11),
    {
        let mut out: Vec<u8> = Vec::new();
        let tag: u8 = match self.node_type {
            NodeType::Internal => 0,
            NodeType::Leaf => 1,
        };
        out.push(tag);
        push_u16(&mut out, self.key_count);
        push_u64(&mut out, self.parent);
        let mut i: usize = 11;
        while i < buf.len()
            invariant
                11 <= i <= buf@.len(),
                buf@ == old(buf)@,
                out@ == header_bytes(*self) + old(buf)@.subrange(11, i as int),
            decreases buf@.len() - i,
        {
            out.push(buf[i]);
            i = i + 1;
            assert(out@ =~= header_bytes(*self) + old(buf)@.subrange(11, i as int));
        }
        assert(old(buf)@.subrange(11, i as int) =~= old(buf)@.skip(11));
        *buf = out;
    }

    /// Reads a header from the first eleven bytes of `buf`.
    pub fn deserialize(buf: &[u8]) -> (r: Result<NodeHeader, NodeError>)
        requires
            buf@.len() >= 11,
        ensures
            match r {
                Ok(h) => header_of(buf@) == Some(h),
                Err(e) => header_of(buf@) is None && e == NodeError::InvalidNodeType,
            },
    {
        let node_type = if buf[0] == 0 {
            NodeType::Internal
        } else if buf[0] == 1 {
            NodeType::Leaf
        } else {
            return Err(NodeError::InvalidNodeType);
        };
        let key_count = read_u16(buf, 1);
        let parent = read_u64(buf, 3);
        Ok(NodeHeader { node_type, key_count, parent })
    }
}

/// Appends a run of `u64`s.
fn push_u64s(buf: &mut Vec<u8>, s: &[u64])
    ensures
        final(buf)@ == old(buf)@ + u64s_bytes(s@),
{
    let mut i: usize = 0;
    while i < s.len()
        invariant
            i <= s@.len(),
            buf@ == old(buf)@ + u64s_bytes(s@.take(i as int)),
        decreases s@.len() - i,
    {
        push_u64(buf, s[i]);
        assert(s@.take(i + 1).drop_last() =~= s@.take(i as int));
        i = i + 1;
        assert(buf@ =~= old(buf)@ + u64s_bytes(s@.take(i as int)));
    }
    assert(s@.take(i as int) =~= s@);
}

/// Pads with zeros up to `len` bytes.
fn pad_zeros(buf: &mut Vec<u8>, len: usize)
    requires
        old(buf)@.len() <= len,
    ensures
        final(buf)@ == old(buf)@ + zeros((len - old(buf)@.len()) as nat),
{
    let start = buf.len();
    while buf.len() < len
        invariant
            start == old(buf)@.len(),
            start <= buf@.len() <= len,
            buf@ == old(buf)@ + zeros((buf@.len() - start) as nat),
        decreases len - buf@.len(),
    {
        buf.push(0);
        assert(buf@ =~= old(buf)@ + zeros((buf@.len() - start) as nat));
    }
}

/// Reads `n` consecutive `u64`s starting at `pos`.
fn read_u64s(buf: &[u8], pos: usize, n: usize) -> (r: Vec<u64>)
    requires
        pos + 8 * n <= buf@.len(),
    ensures
        r@ == Seq::new(n as nat, |i: int| u64_at(buf@, pos + 8 * i)),
{
    let mut out: Vec<u64> = Vec::new();
    let mut i: usize = 0;
    let mut p: usize = pos;
    let len = buf.len();
    while i < n
        invariant
            i <= n,
            p == pos + 8 * i,
            pos + 8 * n <= buf@.len(),
            len == buf@.len(),
            out@ == Seq::new(i as nat, |j: int| u64_at(buf@, pos + 8 * j)),
        decreases n - i,
    {
        out.push(read_u64(buf, p));
        i = i + 1;
        p = p + 8;
        assert(out@ =~= Seq::new(i as nat, |j: int| u64_at(buf@, pos + 8 * j)));
    }
    out
}

pub struct InternalNodeSerializer {
    pub order: usize,
}

impl InternalNodeSerializer {
    /// The page image of an internal node with these keys and children.
    pub fn serialize(&self, header: &NodeHeader, keys: &[u64], children: &[u64], page_size: usize) -> (r: Vec<u8>)
        requires
            internal_size(keys@.len(), children@.len()) <= page_size,
        ensures
            r@ == internal_image(*header, keys@, children@, page_size as nat),
            r@.len() == page_size,
    {
        proof {
            lemma_u64s_bytes(keys@);
            lemma_u64s_bytes(children@);
        }
        let mut buf: Vec<u8> = vec![0u8; 11];
        header.serialize(&mut buf);
        assert(buf@ =~= header_bytes(*header));
        push_u64s(&mut buf, keys);
        push_u64s(&mut buf, children);
        pad_zeros(&mut buf, page_size);
        buf
    }

    /// Reads an internal node from a page image.
    pub fn deserialize(&self, buf: &[u8]) -> (r: Result<(NodeHeader, Vec<u64>, Vec<u64>), NodeError>)
        ensures
            match r {
                Ok((h, keys, children)) => internal_decode(buf@) == Some((h, keys@, children@)),
                Err(_) => internal_decode(buf@) is None,
            },
    {
        if buf.len() < 11 {
            return Err(NodeError::Truncated);
        }
        let header = NodeHeader::deserialize(buf)?;
        if header.node_type != NodeType::Internal {
            return Err(NodeError::UnexpectedNodeType);
        }
        let k = header.key_count as usize;
        if buf.len() < 11 + 16 * k + 8 {
            return Err(NodeError::Truncated);
        }
        let keys = read_u64s(buf, 11, k);
        let children = read_u64s(buf, 11 + 8 * k, k + 1);
        Ok((header, keys, children))
    }
}

pub struct LeafNodeSerializer {
    pub order: usize,
}

impl LeafNodeSerializer {
    /// The page image of a leaf with these keys, record ids and next leaf.
    pub fn serialize(
        &self,
        header: &NodeHeader,
        keys: &[u64],
        rids: &[(u64, u16)],
        next_leaf: u64,
        page_size: usize,
    ) -> (r: Vec<u8>)
        requires
            leaf_size(keys@.len(), rids@.len()) <= page_size,
        ensures
            r@ == leaf_image(*header, keys@, rids@, next_leaf, page_size as nat),
            r@.len() == page_size,
    {
        proof {
            lemma_u64s_bytes(keys@);
            lemma_rids_bytes(rids@);
        }
        let mut buf: Vec<u8> = vec![0u8; 11];
        header.serialize(&mut buf);
        assert(buf@ =~= header_bytes(*header));
        push_u64s(&mut buf, keys);
        let ghost base = buf@;
        let mut i: usize = 0;
        while i < rids.len()
            invariant
                i <= rids@.len(),
                buf@ == base + rids_bytes(rids@.take(i as int)),
            decreases rids@.len() - i,
        {
            let (page_no, slot_no) = rids[i];
            push_u64(&mut buf, page_no);
            push_u16(&mut buf, slot_no);
            assert(rids@.take(i + 1).drop_last() =~= rids@.take(i as int));
            i = i + 1;
            assert(buf@ =~= base + rids_bytes(rids@.take(i as int)));
        }
        assert(rids@.take(i as int) =~= rids@);
        push_u64(&mut buf, next_leaf);
        pad_zeros(&mut buf, page_size);
        buf
    }

    /// Reads a leaf from a page image.
    pub fn deserialize(&self, buf: &[u8]) -> (r: Result<(NodeHeader, Vec<u64>, Vec<(u64, u16)>, u64), NodeError>)
        ensures
            match r {
                Ok((h, keys, rids, next)) => leaf_decode(buf@) == Some((h, keys@, rids@, next)),
                Err(_) => leaf_decode(buf@) is None,
            },
    {
        if buf.len() < 11 {
            return Err(NodeError::Truncated);
        }
        let header = NodeHeader::deserialize(buf)?;
        if header.node_type != NodeType::Leaf {
            return Err(NodeError::UnexpectedNodeType);
        }
        let k = header.key_count as usize;
        if buf.len() < 11 + 18 * k + 8 {
            return Err(NodeError::Truncated);
        }
        let keys = read_u64s(buf, 11, k);
        let base = 11 + 8 * k;
        let mut rids: Vec<(u64, u16)> = Vec::new();
        let mut i: usize = 0;
        while i < k
            invariant
                i <= k,
                k == header.key_count,
                base == 11 + 8 * k,
                11 + 18 * k + 8 <= buf@.len(),
                rids@ == Seq::new(
                    i as nat,
                    |j: int| (u64_at(buf@, base + 10 * j), u16_at(buf@, base + 10 * j + 8)),
                ),
            decreases k - i,
        {
            let p = base + 10 * i;
            let page_no = read_u64(buf, p);
            let slot_no = read_u16(buf, p + 8);
            rids.push((page_no, slot_no));
            i = i + 1;
            assert(rids@ =~= Seq::new(
                i as nat,
                |j: int| (u64_at(buf@, base + 10 * j), u16_at(buf@, base + 10 * j + 8)),
            ));
        }
        let next = read_u64(buf, 11 + 18 * k);
        Ok((header, keys, rids, next))
    }
}

} // verus!
