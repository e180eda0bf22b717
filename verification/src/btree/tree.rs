//! A B+tree over the blocks of a transaction context.
use crate::btree::node::{header_bytes, BTreeNodeData, BTreeNodeHeader, BTREE_MAGIC, BTREE_PAYLOAD_SIZE};
use crate::codec::{get_u64, put_u64, put_zeros, BTreeItem, BTreeKey, KeyOrder};
use crate::error::FsError;
use crate::recovery::{crc32, crc32_of, with_zero_field, zero_field};
use crate::codec::{set_u32, splice};
use crate::transaction::{TxContext, BLOCK_SIZE};
use core::marker::PhantomData;
use vstd::arithmetic::div_mod::lemma_fundamental_div_mod;
use vstd::bytes::*;
use vstd::prelude::*;

verus! {

broadcast use TxContext::lemma_block_len;

/// A key and its value, as stored in a leaf.
#[derive(Clone, Copy)]
pub struct KVPair<K, V> {
    pub key: K,
    pub value: V,
}

/// A separator key and the block of the child to its right, as stored in an
/// internal node.
#[derive(Clone, Copy)]
pub struct KPtrPair<K> {
    pub key: K,
    pub ptr: u64,
}

// ---------------------------------------------------------------------------
// Layout of a node block.

pub open spec fn kv_size<K: BTreeItem, V: BTreeItem>() -> int {
    (K::spec_size() + V::spec_size()) as int
}

pub open spec fn kp_size<K: BTreeItem>() -> int {
    (K::spec_size() + 8) as int
}

/// Capacity of a leaf.
pub open spec fn max_leaf<K: BTreeItem, V: BTreeItem>() -> int {
    BTREE_PAYLOAD_SIZE as int / kv_size::<K, V>()
}

/// Capacity of an internal node (the payload starts with the leftmost pointer).
pub open spec fn max_inner<K: BTreeItem>() -> int {
    (BTREE_PAYLOAD_SIZE as int - 8) / kp_size::<K>()
}

pub open spec fn decode_kv<K: BTreeItem, V: BTreeItem>(b: Seq<u8>) -> KVPair<K, V> {
    KVPair {
        key: K::spec_decode(b.subrange(0, K::spec_size() as int)),
        value: V::spec_decode(b.subrange(K::spec_size() as int, kv_size::<K, V>())),
    }
}

pub open spec fn decode_kp<K: BTreeItem>(b: Seq<u8>) -> KPtrPair<K> {
    KPtrPair {
        key: K::spec_decode(b.subrange(0, K::spec_size() as int)),
        ptr: spec_u64_from_le_bytes(b.subrange(K::spec_size() as int, kp_size::<K>())),
    }
}

/// The header of the node stored in `bytes`.
pub open spec fn node_header(bytes: Seq<u8>) -> BTreeNodeHeader {
    BTreeNodeHeader::spec_decode(bytes.subrange(0, 64))
}

/// The checksum field of the node block `bytes` holds the CRC-32 of the
/// block with that field zeroed.
pub open spec fn node_csum_ok(bytes: Seq<u8>) -> bool {
    node_header(bytes).checksum == crc32_of(zero_field(bytes, 16))
}

/// `bytes` with its checksum field set to the CRC-32 of the block with that
/// field zeroed.
pub open spec fn sealed(bytes: Seq<u8>) -> Seq<u8> {
    splice(bytes, 16, spec_u32_to_le_bytes(crc32_of(zero_field(bytes, 16))))
}

/// The header of an empty leaf of a tree of type `node_type`, before its
/// checksum is set.
pub open spec fn empty_leaf_header(node_type: u32) -> BTreeNodeHeader {
    BTreeNodeHeader {
        magic: BTREE_MAGIC,
        node_type,
        level: 0,
        item_count: 0,
        checksum: 0,
        padding_align: 0,
        generation: 0,
        parent_block: 0,
        next_leaf: 0,
        prev_leaf: 0,
    }
}

/// The block that holds an empty leaf of a tree of type `node_type`: its
/// header, a zero payload, and the checksum over both.
pub open spec fn empty_leaf_image(node_type: u32) -> Seq<u8> {
    sealed(header_bytes(empty_leaf_header(node_type)) + Seq::new(BTREE_PAYLOAD_SIZE as nat, |i: int| 0u8))
}

/// The items of the leaf stored in `bytes`.
pub open spec fn leaf_items<K: BTreeItem, V: BTreeItem>(bytes: Seq<u8>) -> Seq<KVPair<K, V>> {
    let s = kv_size::<K, V>();
    Seq::new(
        node_header(bytes).item_count as nat,
        |i: int| decode_kv::<K, V>(bytes.subrange(64 + i * s, 64 + i * s + s)),
    )
}

/// The leftmost child of the internal node stored in `bytes`.
pub open spec fn node_leftmost(bytes: Seq<u8>) -> u64 {
    spec_u64_from_le_bytes(bytes.subrange(64, 72))
}

/// The separators of the internal node stored in `bytes`.
pub open spec fn inner_items<K: BTreeItem>(bytes: Seq<u8>) -> Seq<KPtrPair<K>> {
    let s = kp_size::<K>();
    Seq::new(
        node_header(bytes).item_count as nat,
        |i: int| decode_kp::<K>(bytes.subrange(72 + i * s, 72 + i * s + s)),
    )
}

/// The child blocks of the internal node stored in `bytes`, leftmost first.
pub open spec fn children<K: BTreeItem>(bytes: Seq<u8>) -> Seq<u64> {
    Seq::new(
        (inner_items::<K>(bytes).len() + 1) as nat,
        |i: int| child_at(node_leftmost(bytes), inner_items::<K>(bytes), i),
    )
}

/// Two node blocks that agree on everything the tree reads from them
/// (they may differ in the parent and sibling links), where `b` keeps a
/// valid checksum when `a` has one.
pub open spec fn same_node<K: BTreeItem, V: BTreeItem>(a: Seq<u8>, b: Seq<u8>) -> bool {
    let ha = node_header(a);
    let hb = node_header(b);
    &&& node_csum_ok(a) ==> node_csum_ok(b)
    &&& ha.magic == hb.magic
    &&& ha.node_type == hb.node_type
    &&& ha.level == hb.level
    &&& ha.item_count == hb.item_count
    &&& ha.level == 0 ==> leaf_items::<K, V>(a) == leaf_items::<K, V>(b)
    &&& ha.level != 0 ==> node_leftmost(a) == node_leftmost(b) && inner_items::<K>(a)
        == inner_items::<K>(b)
}

// ---------------------------------------------------------------------------
// Order and search.

pub open spec fn kv_sorted<K: BTreeKey, V>(s: Seq<KVPair<K, V>>) -> bool {
    forall|i: int, j: int| 0 <= i < j < s.len() ==> s[i].key.rank() < s[j].key.rank()
}

pub open spec fn kp_sorted<K: BTreeKey>(s: Seq<KPtrPair<K>>) -> bool {
    forall|i: int, j: int| 0 <= i < j < s.len() ==> s[i].key.rank() < s[j].key.rank()
}

/// `r` lies in `[lo, hi)`, where a missing bound is no bound.
pub open spec fn in_bounds(lo: Option<int>, hi: Option<int>, r: int) -> bool {
    &&& (lo matches Some(l) ==> l <= r)
    &&& (hi matches Some(h) ==> r < h)
}

/// The value stored for `k` among the items of a leaf.
pub open spec fn leaf_find<K, V>(s: Seq<KVPair<K, V>>, k: K) -> Option<V> {
    if exists|i: int| 0 <= i < s.len() && s[i].key == k {
        Some(s[choose|i: int| 0 <= i < s.len() && s[i].key == k].value)
    } else {
        None
    }
}

/// The index of the child of an internal node that covers `k`: the number of
/// leading separators not above `k`.
pub open spec fn route<K: BTreeKey>(s: Seq<KPtrPair<K>>, k: K) -> int
    decreases s.len(),
{
    if s.len() == 0 {
        0
    } else if k.rank() < s[0].key.rank() {
        0
    } else {
        1 + route(s.subrange(1, s.len() as int), k)
    }
}

/// Child `i` of an internal node: the leftmost child, then the separators'
/// pointers.
pub open spec fn child_at<K>(leftmost: u64, s: Seq<KPtrPair<K>>, i: int) -> u64 {
    if i == 0 {
        leftmost
    } else {
        s[i - 1].ptr
    }
}

pub open spec fn lo_at<K: BTreeKey>(lo: Option<int>, s: Seq<KPtrPair<K>>, i: int) -> Option<int> {
    if i == 0 {
        lo
    } else {
        Some(s[i - 1].key.rank())
    }
}

pub open spec fn hi_at<K: BTreeKey>(hi: Option<int>, s: Seq<KPtrPair<K>>, i: int) -> Option<int> {
    if i == s.len() {
        hi
    } else {
        Some(s[i].key.rank())
    }
}

pub proof fn lemma_route_char<K: BTreeKey>(s: Seq<KPtrPair<K>>, k: K, i: int)
    requires
        kp_sorted(s),
        0 <= i <= s.len(),
        i == 0 || s[i - 1].key.rank() <= k.rank(),
        i == s.len() || k.rank() < s[i].key.rank(),
    ensures
        route(s, k) == i,
    decreases s.len(),
{
    if s.len() > 0 {
        if i == 0 {
        } else {
            assert(s[0].key.rank() <= s[i - 1].key.rank());
            let t = s.subrange(1, s.len() as int);
            lemma_route_char(t, k, i - 1);
        }
    }
}

pub proof fn lemma_route_range<K: BTreeKey>(s: Seq<KPtrPair<K>>, k: K)
    requires
        kp_sorted(s),
    ensures
        0 <= route(s, k) <= s.len(),
        route(s, k) == 0 || s[route(s, k) - 1].key.rank() <= k.rank(),
        route(s, k) == s.len() || k.rank() < s[route(s, k)].key.rank(),
    decreases s.len(),
{
    if s.len() > 0 && k.rank() >= s[0].key.rank() {
        let t = s.subrange(1, s.len() as int);
        lemma_route_range(t, k);
    }
}

/// In sorted items, the item whose key has the rank of `k` is the one found.
pub proof fn lemma_leaf_find<K: BTreeKey, V>(s: Seq<KVPair<K, V>>, k: K)
    requires
        kv_sorted(s),
    ensures
        forall|i: int|
            0 <= i < s.len() && s[i].key.rank() == k.rank() ==> leaf_find(s, k) == Some(
                s[i].value,
            ),
        (forall|i: int| 0 <= i < s.len() ==> s[i].key.rank() != k.rank()) ==> leaf_find(s, k)
            == None::<V>,
{
    assert forall|i: int| 0 <= i < s.len() && s[i].key.rank() == k.rank() implies leaf_find(s, k)
        == Some(s[i].value) by {
        K::lemma_rank_injective(s[i].key, k);
        let j = choose|j: int| 0 <= j < s.len() && s[j].key == k;
        if j != i {
            if j < i {
                assert(s[j].key.rank() < s[i].key.rank());
            } else {
                assert(s[i].key.rank() < s[j].key.rank());
            }
        }
    }
}

proof fn lemma_mul_step(i: int, s: int)
    ensures
        (i + 1) * s == i * s + s,
{
    assert((i + 1) * s == i * s + s) by (nonlinear_arith);
}

proof fn lemma_mul_mono(a: int, b: int, s: int)
    requires
        0 <= a <= b,
        0 <= s,
    ensures
        a * s <= b * s,
{
    assert(a * s <= b * s) by (nonlinear_arith)
        requires
            0 <= a <= b,
            0 <= s,
    ;
}

proof fn lemma_capacity(total: int, s: int)
    requires
        0 < s,
        0 <= total,
    ensures
        (total / s) * s <= total,
        0 <= total / s,
{
    lemma_fundamental_div_mod(total, s);
    assert(s * (total / s) == (total / s) * s) by (nonlinear_arith);
    assert(0 <= total / s) by (nonlinear_arith)
        requires
            0 < s,
            0 <= total,
    ;
}

// ---------------------------------------------------------------------------
// Encoding of pairs and nodes.

fn encode_kv<K: BTreeItem, V: BTreeItem>(p: &KVPair<K, V>, out: &mut Vec<u8>)
    ensures
        final(out)@.len() == old(out)@.len() + kv_size::<K, V>(),
        final(out)@.subrange(0, old(out)@.len() as int) == old(out)@,
        decode_kv::<K, V>(final(out)@.subrange(old(out)@.len() as int, final(out)@.len() as int))
            == *p,
{
    let ghost start = out@;
    p.key.encode_into(out);
    let ghost mid = out@;
    p.value.encode_into(out);
    proof {
        let ks = K::spec_size() as int;
        let e = out@.subrange(start.len() as int, out@.len() as int);
        assert(out@.subrange(0, start.len() as int) =~= mid.subrange(0, start.len() as int));
        assert(e.subrange(0, ks) =~= mid.subrange(start.len() as int, mid.len() as int));
        assert(e.subrange(ks, kv_size::<K, V>()) =~= out@.subrange(mid.len() as int, out@.len() as int));
    }
}

fn decode_kv_at<K: BTreeItem, V: BTreeItem>(bytes: &[u8], off: usize) -> (r: KVPair<K, V>)
    requires
        off + kv_size::<K, V>() <= bytes@.len(),
    ensures
        r == decode_kv::<K, V>(bytes@.subrange(off as int, off + kv_size::<K, V>())),
{
    let _len = bytes.len();
    let ks = K::size();
    let key = K::decode_from(bytes, off);
    let value = V::decode_from(bytes, off + ks);
    proof {
        let e = bytes@.subrange(off as int, off + kv_size::<K, V>());
        assert(e.subrange(0, ks as int) =~= bytes@.subrange(off as int, off + ks));
        assert(e.subrange(ks as int, kv_size::<K, V>()) =~= bytes@.subrange(
            off + ks,
            off + ks + V::spec_size(),
        ));
    }
    KVPair { key, value }
}

fn encode_kp<K: BTreeItem>(p: &KPtrPair<K>, out: &mut Vec<u8>)
    ensures
        final(out)@.len() == old(out)@.len() + kp_size::<K>(),
        final(out)@.subrange(0, old(out)@.len() as int) == old(out)@,
        decode_kp::<K>(final(out)@.subrange(old(out)@.len() as int, final(out)@.len() as int)) == *p,
{
    let ghost start = out@;
    p.key.encode_into(out);
    let ghost mid = out@;
    put_u64(out, p.ptr);
    proof {
        lemma_auto_spec_u64_to_from_le_bytes();
        let ks = K::spec_size() as int;
        let e = out@.subrange(start.len() as int, out@.len() as int);
        assert(out@.subrange(0, start.len() as int) =~= mid.subrange(0, start.len() as int));
        assert(e.subrange(0, ks) =~= mid.subrange(start.len() as int, mid.len() as int));
        assert(e.subrange(ks, kp_size::<K>()) =~= spec_u64_to_le_bytes(p.ptr));
    }
}

fn decode_kp_at<K: BTreeItem>(bytes: &[u8], off: usize) -> (r: KPtrPair<K>)
    requires
        off + kp_size::<K>() <= bytes@.len(),
    ensures
        r == decode_kp::<K>(bytes@.subrange(off as int, off + kp_size::<K>())),
{
    let _len = bytes.len();
    let ks = K::size();
    let key = K::decode_from(bytes, off);
    let ptr = get_u64(bytes, off + ks);
    proof {
        let e = bytes@.subrange(off as int, off + kp_size::<K>());
        assert(e.subrange(0, ks as int) =~= bytes@.subrange(off as int, off + ks));
        assert(e.subrange(ks as int, kp_size::<K>()) =~= bytes@.subrange(off + ks, off + ks + 8));
    }
    KPtrPair { key, ptr }
}

/// A node read from a block: the header and, for a leaf, its items, or, for
/// an internal node, its leftmost child and separators.
struct Node<K, V> {
    header: BTreeNodeHeader,
    leftmost: u64,
    kvs: Vec<KVPair<K, V>>,
    kps: Vec<KPtrPair<K>>,
}

impl<K: BTreeItem, V: BTreeItem> Node<K, V> {
    /// The node fits a block and its count matches its items.
    spec fn shaped(self) -> bool {
        if self.header.level == 0 {
            &&& self.kvs@.len() == self.header.item_count
            &&& self.header.item_count <= max_leaf::<K, V>()
        } else {
            &&& self.kps@.len() == self.header.item_count
            &&& self.header.item_count <= max_inner::<K>()
        }
    }

    /// `bytes` decode to this node (whatever their checksum field holds).
    spec fn stored_in(self, bytes: Seq<u8>) -> bool {
        &&& node_header(bytes) == (BTreeNodeHeader { checksum: node_header(bytes).checksum, ..self.header })
        &&& self.header.level == 0 ==> self.kvs@ == leaf_items::<K, V>(bytes)
        &&& self.header.level != 0 ==> self.leftmost == node_leftmost(bytes) && self.kps@
            == inner_items::<K>(bytes)
    }
}

/// Stores in the checksum field of the node block `bytes` the CRC-32 of the
/// block with that field zeroed.
fn seal_node(bytes: &mut Vec<u8>)
    requires
        old(bytes)@.len() == BLOCK_SIZE,
    ensures
        final(bytes)@ == sealed(old(bytes)@),
        final(bytes)@.len() == BLOCK_SIZE,
        node_csum_ok(final(bytes)@),
        forall|j: int| 0 <= j < BLOCK_SIZE && !(16 <= j < 20) ==> #[trigger] final(bytes)@[j] == old(bytes)@[j],
{
    let ghost b0 = bytes@;
    let zeroed = with_zero_field(bytes, 16);
    let c = crc32(zeroed.as_slice());
    set_u32(bytes, 16, c);
    proof {
        lemma_auto_spec_u32_to_from_le_bytes();
        let b1 = bytes@;
        assert(spec_u32_to_le_bytes(c).len() == 4);
        assert(zero_field(b1, 16) =~= zero_field(b0, 16));
        assert(b1.subrange(0, 64).subrange(16, 20) =~= spec_u32_to_le_bytes(c));
    }
}

/// Sealing changes only the checksum field, so an encoded node stays stored.
proof fn lemma_seal_keeps_node<K: BTreeItem, V: BTreeItem>(n: Node<K, V>, enc: Seq<u8>, b: Seq<u8>)
    requires
        n.shaped(),
        n.stored_in(enc),
        enc.len() == BLOCK_SIZE,
        b.len() == BLOCK_SIZE,
        forall|j: int| 0 <= j < BLOCK_SIZE && !(16 <= j < 20) ==> #[trigger] b[j] == enc[j],
    ensures
        n.stored_in(b),
{
    let hb = b.subrange(0, 64);
    let he = enc.subrange(0, 64);
    assert(hb.subrange(0, 8) =~= he.subrange(0, 8));
    assert(hb.subrange(8, 12) =~= he.subrange(8, 12));
    assert(hb.subrange(12, 14) =~= he.subrange(12, 14));
    assert(hb.subrange(14, 16) =~= he.subrange(14, 16));
    assert(hb.subrange(20, 24) =~= he.subrange(20, 24));
    assert(hb.subrange(24, 32) =~= he.subrange(24, 32));
    assert(hb.subrange(32, 40) =~= he.subrange(32, 40));
    assert(hb.subrange(40, 48) =~= he.subrange(40, 48));
    assert(hb.subrange(48, 56) =~= he.subrange(48, 56));
    let count = n.header.item_count as int;
    lemma_caps::<K, V>();
    K::lemma_size_bounds();
    V::lemma_size_bounds();
    if n.header.level == 0 {
        let sz = kv_size::<K, V>();
        lemma_capacity(BTREE_PAYLOAD_SIZE as int, sz);
        lemma_mul_mono(count, max_leaf::<K, V>(), sz);
        assert forall|i: int| 0 <= i < count implies #[trigger] b.subrange(64 + i * sz, 64 + i * sz + sz)
            =~= enc.subrange(64 + i * sz, 64 + i * sz + sz) by {
            lemma_mul_step(i, sz);
            lemma_mul_mono(i + 1, count, sz);
            lemma_mul_mono(0, i, sz);
        }
        assert(leaf_items::<K, V>(b) =~= leaf_items::<K, V>(enc));
    } else {
        let sz = kp_size::<K>();
        lemma_capacity(BTREE_PAYLOAD_SIZE as int - 8, sz);
        lemma_mul_mono(count, max_inner::<K>(), sz);
        assert(b.subrange(64, 72) =~= enc.subrange(64, 72));
        assert forall|i: int| 0 <= i < count implies #[trigger] b.subrange(72 + i * sz, 72 + i * sz + sz)
            =~= enc.subrange(72 + i * sz, 72 + i * sz + sz) by {
            lemma_mul_step(i, sz);
            lemma_mul_mono(i + 1, count, sz);
            lemma_mul_mono(0, i, sz);
        }
        assert(inner_items::<K>(b) =~= inner_items::<K>(enc));
    }
}

fn encode_node<K: BTreeItem, V: BTreeItem>(n: &Node<K, V>) -> (out: Vec<u8>)
    requires
        n.shaped(),
    ensures
        out@.len() == BLOCK_SIZE,
        n.stored_in(out@),
{
    let mut out: Vec<u8> = Vec::new();
    n.header.encode_into(&mut out);
    assert(out@.subrange(0, 64) == out@);
    let ghost hdr_bytes = out@;
    let count = n.header.item_count as usize;
    if n.header.level == 0 {
        let s = K::size() + V::size();
        proof {
            lemma_capacity(BTREE_PAYLOAD_SIZE as int, s as int);
            lemma_mul_mono(count as int, max_leaf::<K, V>(), s as int);
        }
        let mut i: usize = 0;
        while i < count
            invariant
                n.shaped(),
                n.header.level == 0,
                count == n.kvs@.len(),
                s == kv_size::<K, V>(),
                count * s <= BTREE_PAYLOAD_SIZE,
                i <= count,
                out@.len() == 64 + i * s,
                out@.subrange(0, 64) == hdr_bytes,
                BTreeNodeHeader::spec_decode(hdr_bytes) == n.header,
                forall|j: int|
                    0 <= j < i ==> decode_kv::<K, V>(#[trigger] out@.subrange(64 + j * s, 64 + j * s + s))
                        == n.kvs@[j],
            decreases count - i,
        {
            let ghost prev = out@;
            proof {
                lemma_mul_step(i as int, s as int);
                lemma_mul_mono(i as int + 1, count as int, s as int);
            }
            encode_kv(&n.kvs[i], &mut out);
            proof {
                assert(out@.subrange(0, 64) =~= prev.subrange(0, 64));
                assert forall|j: int| 0 <= j < i + 1 implies decode_kv::<K, V>(
                    #[trigger] out@.subrange(64 + j * s, 64 + j * s + s),
                ) == n.kvs@[j] by {
                    if j < i {
                        lemma_mul_step(j, s as int);
                        lemma_mul_mono(j + 1, i as int, s as int);
                        assert(out@.subrange(64 + j * s, 64 + j * s + s) =~= prev.subrange(
                            64 + j * s,
                            64 + j * s + s,
                        ));
                    }
                }
            }
            i = i + 1;
        }
        let pad = BLOCK_SIZE - out.len();
        let ghost before_pad = out@;
        put_zeros(&mut out, pad);
        proof {
            assert(out@.subrange(0, 64) =~= before_pad.subrange(0, 64));
            assert forall|j: int| 0 <= j < count implies #[trigger] out@.subrange(64 + j * s, 64 + j * s + s)
                == before_pad.subrange(64 + j * s, 64 + j * s + s) by {
                lemma_mul_step(j, s as int);
                lemma_mul_mono(j + 1, count as int, s as int);
                assert(out@.subrange(64 + j * s, 64 + j * s + s) =~= before_pad.subrange(
                    64 + j * s,
                    64 + j * s + s,
                ));
            }
            assert(leaf_items::<K, V>(out@) =~= n.kvs@);
        }
    } else {
        let s = K::size() + 8;
        put_u64(&mut out, n.leftmost);
        proof {
            lemma_auto_spec_u64_to_from_le_bytes();
            assert(out@.subrange(0, 64) =~= hdr_bytes);
            assert(out@.subrange(64, 72) =~= spec_u64_to_le_bytes(n.leftmost));
            lemma_capacity(BTREE_PAYLOAD_SIZE as int - 8, s as int);
            lemma_mul_mono(count as int, max_inner::<K>(), s as int);
        }
        let ghost lm_bytes = out@.subrange(64, 72);
        let mut i: usize = 0;
        while i < count
            invariant
                n.shaped(),
                n.header.level != 0,
                count == n.kps@.len(),
                s == kp_size::<K>(),
                count * s <= BTREE_PAYLOAD_SIZE - 8,
                i <= count,
                out@.len() == 72 + i * s,
                out@.subrange(0, 64) == hdr_bytes,
                out@.subrange(64, 72) == lm_bytes,
                spec_u64_from_le_bytes(lm_bytes) == n.leftmost,
                BTreeNodeHeader::spec_decode(hdr_bytes) == n.header,
                forall|j: int|
                    0 <= j < i ==> decode_kp::<K>(#[trigger] out@.subrange(72 + j * s, 72 + j * s + s))
                        == n.kps@[j],
            decreases count - i,
        {
            let ghost prev = out@;
            proof {
                lemma_mul_step(i as int, s as int);
                lemma_mul_mono(i as int + 1, count as int, s as int);
            }
            encode_kp(&n.kps[i], &mut out);
            proof {
                assert(out@.subrange(0, 64) =~= prev.subrange(0, 64));
                assert(out@.subrange(64, 72) =~= prev.subrange(64, 72));
                assert forall|j: int| 0 <= j < i + 1 implies decode_kp::<K>(
                    #[trigger] out@.subrange(72 + j * s, 72 + j * s + s),
                ) == n.kps@[j] by {
                    if j < i {
                        lemma_mul_step(j, s as int);
                        lemma_mul_mono(j + 1, i as int, s as int);
                        assert(out@.subrange(72 + j * s, 72 + j * s + s) =~= prev.subrange(
                            72 + j * s,
                            72 + j * s + s,
                        ));
                    }
                }
            }
            i = i + 1;
        }
        let pad = BLOCK_SIZE - out.len();
        let ghost before_pad = out@;
        put_zeros(&mut out, pad);
        proof {
            assert(out@.subrange(0, 64) =~= before_pad.subrange(0, 64));
            assert(out@.subrange(64, 72) =~= before_pad.subrange(64, 72));
            assert forall|j: int| 0 <= j < count implies #[trigger] out@.subrange(72 + j * s, 72 + j * s + s)
                == before_pad.subrange(72 + j * s, 72 + j * s + s) by {
                lemma_mul_step(j, s as int);
                lemma_mul_mono(j + 1, count as int, s as int);
                assert(out@.subrange(72 + j * s, 72 + j * s + s) =~= before_pad.subrange(
                    72 + j * s,
                    72 + j * s + s,
                ));
            }
            assert(inner_items::<K>(out@) =~= n.kps@);
        }
    }
    out
}


fn search_kvs<K: BTreeKey, V: BTreeItem>(kvs: &Vec<KVPair<K, V>>, key: &K) -> (r: Result<usize, usize>)
    requires
        kv_sorted(kvs@),
    ensures
        match r {
            Ok(i) => i < kvs@.len() && kvs@[i as int].key.rank() == key.rank(),
            Err(i) => i <= kvs@.len() && (forall|j: int| 0 <= j < i ==> #[trigger] kvs@[j].key.rank()
                < key.rank()) && (forall|j: int| i <= j < kvs@.len() ==> key.rank()
                < #[trigger] kvs@[j].key.rank()),
        },
{
    let mut lo: usize = 0;
    let mut hi: usize = kvs.len();
    while lo < hi
        invariant
            kv_sorted(kvs@),
            lo <= hi <= kvs@.len(),
            forall|j: int| 0 <= j < lo ==> #[trigger] kvs@[j].key.rank() < key.rank(),
            forall|j: int| hi <= j < kvs@.len() ==> key.rank() < #[trigger] kvs@[j].key.rank(),
        decreases hi - lo,
    {
        let mid = lo + (hi - lo) / 2;
        match kvs[mid].key.compare_key(key) {
            KeyOrder::Equal => {
                return Ok(mid);
            },
            KeyOrder::Less => {
                lo = mid + 1;
            },
            KeyOrder::Greater => {
                hi = mid;
            },
        }
    }
    Err(lo)
}

fn search_kps<K: BTreeKey>(kps: &Vec<KPtrPair<K>>, key: &K) -> (r: Result<usize, usize>)
    requires
        kp_sorted(kps@),
    ensures
        match r {
            Ok(i) => i < kps@.len() && kps@[i as int].key.rank() == key.rank(),
            Err(i) => i <= kps@.len() && (forall|j: int| 0 <= j < i ==> #[trigger] kps@[j].key.rank()
                < key.rank()) && (forall|j: int| i <= j < kps@.len() ==> key.rank()
                < #[trigger] kps@[j].key.rank()),
        },
{
    let mut lo: usize = 0;
    let mut hi: usize = kps.len();
    while lo < hi
        invariant
            kp_sorted(kps@),
            lo <= hi <= kps@.len(),
            forall|j: int| 0 <= j < lo ==> #[trigger] kps@[j].key.rank() < key.rank(),
            forall|j: int| hi <= j < kps@.len() ==> key.rank() < #[trigger] kps@[j].key.rank(),
        decreases hi - lo,
    {
        let mid = lo + (hi - lo) / 2;
        match kps[mid].key.compare_key(key) {
            KeyOrder::Equal => {
                return Ok(mid);
            },
            KeyOrder::Less => {
                lo = mid + 1;
            },
            KeyOrder::Greater => {
                hi = mid;
            },
        }
    }
    Err(lo)
}

/// The index of the child that covers `key`, found by the same scan that
/// `route` describes.
fn route_index<K: BTreeKey>(kps: &Vec<KPtrPair<K>>, key: &K) -> (r: usize)
    requires
        kp_sorted(kps@),
    ensures
        r == route(kps@, *key),
        r <= kps@.len(),
{
    let mut i: usize = 0;
    let mut found = false;
    while !found && i < kps.len()
        invariant
            kp_sorted(kps@),
            i <= kps@.len(),
            forall|j: int| 0 <= j < i ==> #[trigger] kps@[j].key.rank() <= key.rank(),
            found ==> i < kps@.len() && key.rank() < kps@[i as int].key.rank(),
        decreases kps@.len() - i, if found { 0int } else { 1int },
    {
        if key.compare_key(&kps[i].key) == KeyOrder::Less {
            found = true;
        } else {
            i = i + 1;
        }
    }
    proof {
        if i > 0 {
            assert(kps@[i - 1].key.rank() <= key.rank());
        }
        lemma_route_char(kps@, *key, i as int);
    }
    i
}

/// A source of new blocks for a growing tree.
pub trait BlockAllocator {
    /// Block `b` is one this allocator will not hand out.
    spec fn avoids(&self, b: u64) -> bool;

    /// The next `n` requests will all succeed.
    spec fn can_supply(&self, n: nat) -> bool;

    proof fn lemma_supply_mono(&self, n: nat)
        ensures
            self.can_supply(n + 1) ==> self.can_supply(n),
    ;

    /// `e` is an error this allocator refuses a request with.
    spec fn refuses_with(&self, e: FsError) -> bool;

    /// Hands out a block that it did not avoid before and avoids from now on.
    fn allocate_block(&mut self) -> (r: Result<u64, FsError>)
        ensures
            forall|b: u64| old(self).avoids(b) ==> #[trigger] final(self).avoids(b),
            r matches Ok(x) ==> !old(self).avoids(x) && final(self).avoids(x),
            old(self).can_supply(1) ==> r is Ok,
            !old(self).can_supply(1) ==> r is Err,
            forall|n: nat| old(self).can_supply(n + 1) ==> #[trigger] final(self).can_supply(n),
            r matches Err(e) ==> old(self).refuses_with(e),
            forall|e: FsError| #[trigger] final(self).refuses_with(e) == old(self).refuses_with(e),
    ;
}

/// Hands out the blocks `next`, `next + 1`, ... in turn.
pub struct SequentialAllocator {
    pub next: u64,
}

impl SequentialAllocator {
    pub fn new(first: u64) -> (r: Self)
        ensures
            r.next == first,
    {
        SequentialAllocator { next: first }
    }
}

impl BlockAllocator for SequentialAllocator {
    open spec fn avoids(&self, b: u64) -> bool {
        b < self.next
    }

    open spec fn can_supply(&self, n: nat) -> bool {
        self.next + n <= u64::MAX
    }

    proof fn lemma_supply_mono(&self, n: nat) {
    }

    open spec fn refuses_with(&self, e: FsError) -> bool {
        e == FsError::OutOfMemory
    }

    fn allocate_block(&mut self) -> (r: Result<u64, FsError>) {
        if self.next < u64::MAX {
            let b = self.next;
            self.next = self.next + 1;
            Ok(b)
        } else {
            Err(FsError::OutOfMemory)
        }
    }
}

/// An allocator that refuses every request with `error`.
pub struct FailingAllocator {
    pub error: FsError,
}

impl BlockAllocator for FailingAllocator {
    open spec fn avoids(&self, b: u64) -> bool {
        true
    }

    open spec fn can_supply(&self, n: nat) -> bool {
        n == 0
    }

    proof fn lemma_supply_mono(&self, n: nat) {
    }

    open spec fn refuses_with(&self, e: FsError) -> bool {
        e == self.error
    }

    fn allocate_block(&mut self) -> (r: Result<u64, FsError>)
        ensures
            r == Err::<u64, FsError>(old(self).error),
            *final(self) == *old(self),
    {
        Err(self.error)
    }
}

/// Replacing the item whose key has the rank of `kv.key` stores `kv` and
/// keeps the rest.
proof fn lemma_find_update<K: BTreeKey, V>(s: Seq<KVPair<K, V>>, idx: int, kv: KVPair<K, V>)
    requires
        kv_sorted(s),
        0 <= idx < s.len(),
        s[idx].key.rank() == kv.key.rank(),
    ensures
        kv_sorted(s.update(idx, kv)),
        forall|k: K|
            #[trigger] leaf_find(s.update(idx, kv), k) == (if k == kv.key {
                Some(kv.value)
            } else {
                leaf_find(s, k)
            }),
{
    let t = s.update(idx, kv);
    assert forall|k: K| #[trigger] leaf_find(t, k) == (if k == kv.key {
        Some(kv.value)
    } else {
        leaf_find(s, k)
    }) by {
        lemma_leaf_find(s, k);
        lemma_leaf_find(t, k);
        K::lemma_rank_injective(k, kv.key);
        if k.rank() != kv.key.rank() {
            if exists|j: int| 0 <= j < s.len() && s[j].key.rank() == k.rank() {
                let j = choose|j: int| 0 <= j < s.len() && s[j].key.rank() == k.rank();
                assert(t[j] == s[j]);
            } else {
                assert forall|j: int| 0 <= j < t.len() implies t[j].key.rank() != k.rank() by {
                    if j != idx {
                        assert(t[j] == s[j]);
                    }
                }
            }
        } else {
            assert(t[idx].key.rank() == k.rank());
        }
    }
}

/// Inserting `kv` at its place in the order stores it and keeps the rest.
proof fn lemma_find_insert<K: BTreeKey, V>(s: Seq<KVPair<K, V>>, idx: int, kv: KVPair<K, V>)
    requires
        kv_sorted(s),
        0 <= idx <= s.len(),
        forall|j: int| 0 <= j < idx ==> #[trigger] s[j].key.rank() < kv.key.rank(),
        forall|j: int| idx <= j < s.len() ==> kv.key.rank() < #[trigger] s[j].key.rank(),
    ensures
        kv_sorted(s.insert(idx, kv)),
        forall|k: K|
            #[trigger] leaf_find(s.insert(idx, kv), k) == (if k == kv.key {
                Some(kv.value)
            } else {
                leaf_find(s, k)
            }),
{
    let t = s.insert(idx, kv);
    s.insert_ensures(idx, kv);
    assert forall|i: int, j: int| 0 <= i < j < t.len() implies t[i].key.rank() < t[j].key.rank() by {
        if i < idx {
            assert(t[i] == s[i]);
        } else if i > idx {
            assert(t[i] == s[i - 1]);
        }
        if j < idx {
            assert(t[j] == s[j]);
        } else if j > idx {
            assert(t[j] == s[j - 1]);
        }
    }
    assert forall|k: K| #[trigger] leaf_find(t, k) == (if k == kv.key {
        Some(kv.value)
    } else {
        leaf_find(s, k)
    }) by {
        lemma_leaf_find(s, k);
        lemma_leaf_find(t, k);
        K::lemma_rank_injective(k, kv.key);
        if k.rank() != kv.key.rank() {
            if exists|j: int| 0 <= j < s.len() && s[j].key.rank() == k.rank() {
                let j = choose|j: int| 0 <= j < s.len() && s[j].key.rank() == k.rank();
                if j < idx {
                    assert(t[j] == s[j]);
                } else {
                    assert(t[j + 1] == s[j]);
                }
            } else {
                assert forall|j: int| 0 <= j < t.len() implies t[j].key.rank() != k.rank() by {
                    if j < idx {
                        assert(t[j] == s[j]);
                    } else if j > idx {
                        assert(t[j] == s[j - 1]);
                    }
                }
            }
        } else {
            assert(t[idx].key.rank() == k.rank());
        }
    }
}

/// Removing the item at `idx` forgets its key and keeps the rest.
proof fn lemma_find_remove<K: BTreeKey, V>(s: Seq<KVPair<K, V>>, idx: int)
    requires
        kv_sorted(s),
        0 <= idx < s.len(),
    ensures
        kv_sorted(s.remove(idx)),
        forall|k: K|
            #[trigger] leaf_find(s.remove(idx), k) == (if k == s[idx].key {
                None
            } else {
                leaf_find(s, k)
            }),
{
    let t = s.remove(idx);
    assert forall|i: int, j: int| 0 <= i < j < t.len() implies t[i].key.rank() < t[j].key.rank() by {
        let oi = if i < idx { i } else { i + 1 };
        let oj = if j < idx { j } else { j + 1 };
        assert(t[i] == s[oi]);
        assert(t[j] == s[oj]);
    }
    assert forall|k: K| #[trigger] leaf_find(t, k) == (if k == s[idx].key {
        None
    } else {
        leaf_find(s, k)
    }) by {
        lemma_leaf_find(s, k);
        lemma_leaf_find(t, k);
        K::lemma_rank_injective(k, s[idx].key);
        if k.rank() != s[idx].key.rank() {
            if exists|j: int| 0 <= j < s.len() && s[j].key.rank() == k.rank() {
                let j = choose|j: int| 0 <= j < s.len() && s[j].key.rank() == k.rank();
                if j < idx {
                    assert(t[j] == s[j]);
                } else {
                    assert(t[j - 1] == s[j]);
                }
            } else {
                assert forall|j: int| 0 <= j < t.len() implies t[j].key.rank() != k.rank() by {
                    let oj = if j < idx { j } else { j + 1 };
                    assert(t[j] == s[oj]);
                }
            }
        } else {
            assert forall|j: int| 0 <= j < t.len() implies t[j].key.rank() != k.rank() by {
                let oj = if j < idx { j } else { j + 1 };
                assert(t[j] == s[oj]);
            }
        }
    }
}

/// The items below a rank, and those from it on, keep what the whole held for
/// the keys on their side.
proof fn lemma_find_split<K: BTreeKey, V>(s: Seq<KVPair<K, V>>, mid: int)
    requires
        kv_sorted(s),
        0 <= mid < s.len(),
    ensures
        kv_sorted(s.subrange(0, mid)),
        kv_sorted(s.subrange(mid, s.len() as int)),
        forall|k: K|
            k.rank() < s[mid].key.rank() ==> #[trigger] leaf_find(s.subrange(0, mid), k)
                == leaf_find(s, k),
        forall|k: K|
            k.rank() >= s[mid].key.rank() ==> #[trigger] leaf_find(
                s.subrange(mid, s.len() as int),
                k,
            ) == leaf_find(s, k),
{
    let a = s.subrange(0, mid);
    let b = s.subrange(mid, s.len() as int);
    assert forall|k: K| k.rank() < s[mid].key.rank() implies #[trigger] leaf_find(a, k) == leaf_find(s, k) by {
        lemma_leaf_find(s, k);
        lemma_leaf_find(a, k);
        if exists|j: int| 0 <= j < s.len() && s[j].key.rank() == k.rank() {
            let j = choose|j: int| 0 <= j < s.len() && s[j].key.rank() == k.rank();
            if j >= mid {
                assert(s[mid].key.rank() <= s[j].key.rank());
            }
            assert(a[j] == s[j]);
        } else {
            assert forall|j: int| 0 <= j < a.len() implies a[j].key.rank() != k.rank() by {
                assert(a[j] == s[j]);
            }
        }
    }
    assert forall|k: K| k.rank() >= s[mid].key.rank() implies #[trigger] leaf_find(b, k) == leaf_find(s, k) by {
        lemma_leaf_find(s, k);
        lemma_leaf_find(b, k);
        if exists|j: int| 0 <= j < s.len() && s[j].key.rank() == k.rank() {
            let j = choose|j: int| 0 <= j < s.len() && s[j].key.rank() == k.rank();
            if j < mid {
                assert(s[j].key.rank() < s[mid].key.rank());
            }
            assert(b[j - mid] == s[j]);
        } else {
            assert forall|j: int| 0 <= j < b.len() implies b[j].key.rank() != k.rank() by {
                assert(b[j] == s[j + mid]);
            }
        }
    }
}

/// Inserting a separator at its place keeps the separators sorted and moves
/// the route of each key by at most one.
#[verifier::spinoff_prover]
proof fn lemma_route_insert<K: BTreeKey>(s: Seq<KPtrPair<K>>, i: int, e: KPtrPair<K>, k: K)
    requires
        kp_sorted(s),
        0 <= i <= s.len(),
        i == 0 || s[i - 1].key.rank() < e.key.rank(),
        i == s.len() || e.key.rank() < s[i].key.rank(),
    ensures
        kp_sorted(s.insert(i, e)),
        route(s.insert(i, e), k) == (if route(s, k) < i {
            route(s, k)
        } else if route(s, k) > i {
            route(s, k) + 1
        } else if k.rank() < e.key.rank() {
            i
        } else {
            i + 1
        }),
{
    let t = s.insert(i, e);
    s.insert_ensures(i, e);
    assert forall|a: int, b: int| 0 <= a < b < t.len() implies t[a].key.rank() < t[b].key.rank() by {
        if a < i {
            assert(t[a] == s[a]);
        } else if a > i {
            assert(t[a] == s[a - 1]);
        }
        if b < i {
            assert(t[b] == s[b]);
        } else if b > i {
            assert(t[b] == s[b - 1]);
        }
        if a < i && b > i {
            assert(s[a].key.rank() <= s[i - 1].key.rank());
        }
        if a == i && b > i + 1 {
            assert(s[i].key.rank() <= s[b - 1].key.rank());
        }
    }
    lemma_route_range(s, k);
    let j = route(s, k);
    let r = if j < i {
        j
    } else if j > i {
        j + 1
    } else if k.rank() < e.key.rank() {
        i
    } else {
        i + 1
    };
    if j < i {
        assert(t[j] == s[j]);
        if j > 0 {
            assert(t[j - 1] == s[j - 1]);
        }
    } else if j > i {
        assert(t[j] == s[j - 1]);
        if j < s.len() {
            assert(t[j + 1] == s[j]);
        }
    } else {
        if k.rank() < e.key.rank() {
            if i > 0 {
                assert(t[i - 1] == s[i - 1]);
            }
        } else {
            if i < s.len() {
                assert(t[i + 1] == s[i]);
            }
        }
    }
    lemma_route_char(t, k, r);
}

/// Children and bounds of a node after a separator is inserted at `i`.
proof fn lemma_insert_index<K: BTreeKey>(
    s: Seq<KPtrPair<K>>,
    i: int,
    e: KPtrPair<K>,
    lm: u64,
    lo: Option<int>,
    hi: Option<int>,
    j: int,
)
    requires
        0 <= i <= s.len(),
        0 <= j <= s.len() + 1,
    ensures
        child_at(lm, s.insert(i, e), j) == (if j <= i {
            child_at(lm, s, j)
        } else if j == i + 1 {
            e.ptr
        } else {
            child_at(lm, s, j - 1)
        }),
        lo_at(lo, s.insert(i, e), j) == (if j <= i {
            lo_at(lo, s, j)
        } else if j == i + 1 {
            Some(e.key.rank())
        } else {
            lo_at(lo, s, j - 1)
        }),
        hi_at(hi, s.insert(i, e), j) == (if j < i {
            hi_at(hi, s, j)
        } else if j == i {
            Some(e.key.rank())
        } else {
            hi_at(hi, s, j - 1)
        }),
{
    s.insert_ensures(i, e);
}

/// A split of the separators at `mid`: the left node keeps the separators
/// before it, the right node starts at its pointer.
proof fn lemma_split_index<K: BTreeKey>(
    t: Seq<KPtrPair<K>>,
    mid: int,
    lm: u64,
    lo: Option<int>,
    hi: Option<int>,
    j: int,
)
    requires
        0 <= mid < t.len(),
    ensures
        0 <= j <= mid ==> child_at(lm, t.subrange(0, mid), j) == child_at(lm, t, j) && lo_at(
            lo,
            t.subrange(0, mid),
            j,
        ) == lo_at(lo, t, j) && hi_at(Some(t[mid].key.rank()), t.subrange(0, mid), j) == hi_at(
            hi,
            t,
            j,
        ),
        0 <= j < t.len() - mid ==> child_at(t[mid].ptr, t.subrange(mid + 1, t.len() as int), j)
            == child_at(lm, t, mid + 1 + j) && lo_at(
            Some(t[mid].key.rank()),
            t.subrange(mid + 1, t.len() as int),
            j,
        ) == lo_at(lo, t, mid + 1 + j) && hi_at(hi, t.subrange(mid + 1, t.len() as int), j)
            == hi_at(hi, t, mid + 1 + j),
{
}

/// A B+tree whose nodes live in the blocks of a transaction context, rooted at
/// `root_block`; every node of the tree carries `node_type`.
pub struct BTree<K, V> {
    pub root_block: u64,
    pub node_type: u32,
    pub _marker: PhantomData<(K, V)>,
}

impl<K: BTreeKey, V: BTreeItem> BTree<K, V> {
    /// The node type that every node of this tree carries.
    pub open spec fn tree_type(self) -> u32 {
        self.node_type
    }

    pub fn new(root_block: u64, node_type: u32) -> (r: Self)
        ensures
            r.root_block == root_block,
            r.tree_type() == node_type,
    {
        BTree { root_block, node_type, _marker: PhantomData }
    }

    /// Items that fit in a leaf.
    pub fn max_leaf_items() -> (r: usize)
        ensures
            r == max_leaf::<K, V>(),
    {
        BTREE_PAYLOAD_SIZE / (K::size() + V::size())
    }

    /// Separators that fit in an internal node.
    pub fn max_internal_items() -> (r: usize)
        ensures
            r == max_inner::<K>(),
    {
        (BTREE_PAYLOAD_SIZE - 8) / (K::size() + 8)
    }

    /// Block `b` holds a node of this tree, at height `h` (leaves have height
    /// 0), with sorted keys and room for one more item.
    pub closed spec fn node_ok(self, ctx: TxContext, b: u64, h: nat) -> bool {
        let by = ctx.block(b);
        let hd = node_header(by);
        &&& b != 0
        &&& hd.magic == BTREE_MAGIC
        &&& hd.node_type == self.node_type
        &&& node_csum_ok(by)
        &&& (hd.level == 0) == (h == 0)
        &&& if h == 0 {
            &&& (hd.item_count as int) < max_leaf::<K, V>()
            &&& kv_sorted(leaf_items::<K, V>(by))
        } else {
            &&& (hd.item_count as int) < max_inner::<K>()
            &&& kp_sorted(inner_items::<K>(by))
        }
    }

    /// Block `x` belongs to the subtree rooted at `b` of height `h`.
    pub closed spec fn in_tree(self, ctx: TxContext, b: u64, h: nat, x: u64) -> bool
        decreases h,
    {
        if x == b {
            true
        } else if h == 0 {
            false
        } else {
            let by = ctx.block(b);
            let s = inner_items::<K>(by);
            exists|i: int|
                0 <= i <= s.len() && self.in_tree(
                    ctx,
                    #[trigger] child_at(node_leftmost(by), s, i),
                    (h - 1) as nat,
                    x,
                )
        }
    }

    /// The subtree rooted at `b` is a well-formed tree of height `h` whose keys
    /// lie in `[lo, hi)`, and whose nodes occupy distinct blocks.
    pub closed spec fn wf_at(self, ctx: TxContext, b: u64, h: nat, lo: Option<int>, hi: Option<
        int,
    >) -> bool
        decreases h,
    {
        let by = ctx.block(b);
        &&& self.node_ok(ctx, b, h)
        &&& if h == 0 {
            let s = leaf_items::<K, V>(by);
            forall|i: int| 0 <= i < s.len() ==> in_bounds(lo, hi, #[trigger] s[i].key.rank())
        } else {
            let s = inner_items::<K>(by);
            let lm = node_leftmost(by);
            &&& forall|i: int| 0 <= i < s.len() ==> in_bounds(lo, hi, #[trigger] s[i].key.rank())
            &&& forall|i: int|
                0 <= i <= s.len() ==> self.wf_at(
                    ctx,
                    #[trigger] child_at(lm, s, i),
                    (h - 1) as nat,
                    lo_at(lo, s, i),
                    hi_at(hi, s, i),
                )
            &&& forall|i: int|
                0 <= i <= s.len() ==> !#[trigger] self.in_tree(
                    ctx,
                    child_at(lm, s, i),
                    (h - 1) as nat,
                    b,
                )
            &&& forall|i: int, j: int, x: u64|
                #![trigger self.in_tree(ctx, child_at(lm, s, i), (h - 1) as nat, x), self.in_tree(ctx, child_at(lm, s, j), (h - 1) as nat, x)]
                0 <= i < j <= s.len() ==> !(self.in_tree(ctx, child_at(lm, s, i), (h - 1) as nat, x)
                    && self.in_tree(ctx, child_at(lm, s, j), (h - 1) as nat, x))
        }
    }

    /// The value that the subtree rooted at `b` of height `h` holds for `k`.
    pub closed spec fn lookup_at(self, ctx: TxContext, b: u64, h: nat, k: K) -> Option<V>
        decreases h,
    {
        let by = ctx.block(b);
        if h == 0 {
            leaf_find(leaf_items::<K, V>(by), k)
        } else {
            let s = inner_items::<K>(by);
            self.lookup_at(ctx, child_at(node_leftmost(by), s, route(s, k)), (h - 1) as nat, k)
        }
    }

    /// Inserting `k` into the subtree rooted at `b` of height `h` splits no
    /// node: the leaf that `k` routes to holds fewer than its capacity less
    /// one items.
    pub open spec fn fits_at(self, ctx: TxContext, b: u64, h: nat, k: K) -> bool
        decreases h,
    {
        let by = ctx.block(b);
        if h == 0 {
            node_header(by).item_count + 1 < max_leaf::<K, V>()
        } else {
            let s = inner_items::<K>(by);
            self.fits_at(ctx, child_at(node_leftmost(by), s, route(s, k)), (h - 1) as nat, k)
        }
    }

    /// Inserting `k` into the tree stored in `ctx` splits no node, so it
    /// takes no new block.
    pub open spec fn fits(self, ctx: TxContext, k: K) -> bool {
        self.fits_at(ctx, self.root_block, self.height(ctx), k)
    }

    /// The root block carries this tree's magic and node type, but its bytes
    /// do not match its checksum.
    pub open spec fn root_damaged(self, ctx: TxContext) -> bool {
        let by = ctx.block(self.root_block);
        &&& node_header(by).magic == BTREE_MAGIC
        &&& node_header(by).node_type == self.node_type
        &&& !node_csum_ok(by)
    }

    /// The root block is not a valid node of this tree: it lacks the
    /// tree's magic or node type, or its bytes do not match its checksum.
    pub open spec fn root_rejected(self, ctx: TxContext) -> bool {
        let by = ctx.block(self.root_block);
        ||| node_header(by).magic != BTREE_MAGIC
        ||| node_header(by).node_type != self.node_type
        ||| !node_csum_ok(by)
    }

    /// The tree stored in `ctx` is well formed.
    pub closed spec fn inv(self, ctx: TxContext) -> bool {
        exists|h: nat| self.wf_at(ctx, self.root_block, h, None, None)
    }

    /// The height of the tree (0 when the root is a leaf).
    pub closed spec fn height(self, ctx: TxContext) -> nat {
        choose|h: nat| self.wf_at(ctx, self.root_block, h, None, None)
    }

    /// The value that the tree holds for `k`.
    pub closed spec fn get(self, ctx: TxContext, k: K) -> Option<V> {
        self.lookup_at(ctx, self.root_block, self.height(ctx), k)
    }

    /// Block `x` holds a node of the tree.
    pub closed spec fn contains_block(self, ctx: TxContext, x: u64) -> bool {
        self.in_tree(ctx, self.root_block, self.height(ctx), x)
    }

    /// A tree is determined by its root and its node type.
    pub proof fn lemma_same_tree(a: Self, b: Self)
        requires
            a.root_block == b.root_block,
            a.tree_type() == b.tree_type(),
        ensures
            a == b,
    {
    }

    /// `t1` in `c1` is a well-formed tree of the same type that holds what
    /// `t0` held in `c0`, with `key` mapped to `value`.
    pub open spec fn holds_insert(t0: Self, c0: TxContext, t1: Self, c1: TxContext, key: K, value: V) -> bool {
        &&& t1.inv(c1)
        &&& t1.tree_type() == t0.tree_type()
        &&& forall|k: K| #[trigger] t1.get(c1, k) == (if k == key {
            Some(value)
        } else {
            t0.get(c0, k)
        })
    }

    /// Allocator `a` hands out no block of the tree, nor block 0.
    pub open spec fn guarded_by<A: BlockAllocator>(self, ctx: TxContext, a: A) -> bool {
        &&& forall|x: u64| #[trigger] self.contains_block(ctx, x) ==> a.avoids(x)
        &&& a.avoids(0)
    }

    proof fn lemma_height_unique(
        self,
        ctx: TxContext,
        b: u64,
        h1: nat,
        lo1: Option<int>,
        hi1: Option<int>,
        h2: nat,
        lo2: Option<int>,
        hi2: Option<int>,
    )
        requires
            self.wf_at(ctx, b, h1, lo1, hi1),
            self.wf_at(ctx, b, h2, lo2, hi2),
        ensures
            h1 == h2,
        decreases h1,
    {
        if h1 > 0 && h2 > 0 {
            let by = ctx.block(b);
            let s = inner_items::<K>(by);
            let lm = node_leftmost(by);
            assert(self.node_ok(ctx, b, h1));
            assert(forall|i: int| 0 <= i < s.len() ==> in_bounds(lo1, hi1, #[trigger] s[i].key.rank()));
            assert(self.wf_at(ctx, child_at(lm, s, 0), (h1 - 1) as nat, lo_at(lo1, s, 0), hi_at(hi1, s, 0)));
            assert(self.wf_at(ctx, child_at(lm, s, 0), (h2 - 1) as nat, lo_at(lo2, s, 0), hi_at(hi2, s, 0)));
            self.lemma_height_unique(
                ctx,
                child_at(lm, s, 0),
                (h1 - 1) as nat,
                lo_at(lo1, s, 0),
                hi_at(hi1, s, 0),
                (h2 - 1) as nat,
                lo_at(lo2, s, 0),
                hi_at(hi2, s, 0),
            );
        }
    }

    /// The shape of a subtree depends on the tree's node type, not on where
    /// its root is.
    proof fn lemma_retarget(self, other: Self, c: TxContext, b: u64, h: nat)
        requires
            self.node_type == other.node_type,
        ensures
            forall|lo: Option<int>, hi: Option<int>| #[trigger] self.wf_at(c, b, h, lo, hi) == other.wf_at(c, b, h, lo, hi),
            forall|x: u64| #[trigger] self.in_tree(c, b, h, x) == other.in_tree(c, b, h, x),
            forall|k: K| #[trigger] self.lookup_at(c, b, h, k) == other.lookup_at(c, b, h, k),
        decreases h,
    {
        if h > 0 {
            let by = c.block(b);
            let s = inner_items::<K>(by);
            let lm = node_leftmost(by);
            let hc = (h - 1) as nat;
            assert forall|i: int| #![trigger child_at(lm, s, i)] 0 <= i <= s.len() implies {
                &&& forall|lo: Option<int>, hi: Option<int>| #[trigger] self.wf_at(c, child_at(lm, s, i), hc, lo, hi) == other.wf_at(c, child_at(lm, s, i), hc, lo, hi)
                &&& forall|x: u64| #[trigger] self.in_tree(c, child_at(lm, s, i), hc, x) == other.in_tree(c, child_at(lm, s, i), hc, x)
                &&& forall|k: K| #[trigger] self.lookup_at(c, child_at(lm, s, i), hc, k) == other.lookup_at(c, child_at(lm, s, i), hc, k)
            } by {
                self.lemma_retarget(other, c, child_at(lm, s, i), hc);
            }
            assert forall|k: K| #[trigger] self.lookup_at(c, b, h, k) == other.lookup_at(c, b, h, k) by {
                let ck = child_at(lm, s, route(s, k));
                self.lemma_retarget(other, c, ck, hc);
                assert(self.lookup_at(c, b, h, k) == self.lookup_at(c, ck, hc, k));
                assert(other.lookup_at(c, b, h, k) == other.lookup_at(c, ck, hc, k));
            }
            assert forall|x: u64| #[trigger] self.in_tree(c, b, h, x) == other.in_tree(c, b, h, x) by {
                if x != b {
                    if self.in_tree(c, b, h, x) {
                        let i = choose|i: int| 0 <= i <= s.len() && self.in_tree(c, #[trigger] child_at(lm, s, i), hc, x);
                        assert(other.in_tree(c, child_at(lm, s, i), hc, x));
                    }
                    if other.in_tree(c, b, h, x) {
                        let i = choose|i: int| 0 <= i <= s.len() && other.in_tree(c, #[trigger] child_at(lm, s, i), hc, x);
                        assert(self.in_tree(c, child_at(lm, s, i), hc, x));
                    }
                }
            }
            assert forall|lo: Option<int>, hi: Option<int>| #[trigger] self.wf_at(c, b, h, lo, hi) == other.wf_at(c, b, h, lo, hi) by {
                if self.wf_at(c, b, h, lo, hi) {
                    assert forall|i: int| 0 <= i <= s.len() implies other.wf_at(c, #[trigger] child_at(lm, s, i), hc, lo_at(lo, s, i), hi_at(hi, s, i)) by {
                        assert(self.wf_at(c, child_at(lm, s, i), hc, lo_at(lo, s, i), hi_at(hi, s, i)));
                    }
                    assert forall|i: int| 0 <= i <= s.len() implies !#[trigger] other.in_tree(c, child_at(lm, s, i), hc, b) by {
                        assert(!self.in_tree(c, child_at(lm, s, i), hc, b));
                    }
                    assert forall|i: int, j: int, x: u64| 0 <= i < j <= s.len() implies !(other.in_tree(c, child_at(lm, s, i), hc, x)
                        && other.in_tree(c, child_at(lm, s, j), hc, x)) by {
                        assert(!(self.in_tree(c, child_at(lm, s, i), hc, x) && self.in_tree(c, child_at(lm, s, j), hc, x)));
                    }
                }
                if other.wf_at(c, b, h, lo, hi) {
                    assert forall|i: int| 0 <= i <= s.len() implies self.wf_at(c, #[trigger] child_at(lm, s, i), hc, lo_at(lo, s, i), hi_at(hi, s, i)) by {
                        assert(other.wf_at(c, child_at(lm, s, i), hc, lo_at(lo, s, i), hi_at(hi, s, i)));
                    }
                    assert forall|i: int| 0 <= i <= s.len() implies !#[trigger] self.in_tree(c, child_at(lm, s, i), hc, b) by {
                        assert(!other.in_tree(c, child_at(lm, s, i), hc, b));
                    }
                    assert forall|i: int, j: int, x: u64| 0 <= i < j <= s.len() implies !(self.in_tree(c, child_at(lm, s, i), hc, x)
                        && self.in_tree(c, child_at(lm, s, j), hc, x)) by {
                        assert(!(other.in_tree(c, child_at(lm, s, i), hc, x) && other.in_tree(c, child_at(lm, s, j), hc, x)));
                    }
                }
            }
        }
    }

    /// Under the invariant, the height is the one the tree is well formed at.
    proof fn lemma_height(self, ctx: TxContext, h: nat)
        requires
            self.wf_at(ctx, self.root_block, h, None, None),
        ensures
            self.inv(ctx),
            self.height(ctx) == h,
    {
        let h2 = self.height(ctx);
        self.lemma_height_unique(ctx, self.root_block, h, None, None, h2, None, None);
    }

    /// What an insert does, seen by lookups: the key inserted finds its
    /// value and every other key finds what it found before.
    pub proof fn lemma_get_after_insert(t0: Self, c0: TxContext, t1: Self, c1: TxContext, key: K, value: V, k: K)
        requires
            Self::holds_insert(t0, c0, t1, c1, key, value),
        ensures
            t1.get(c1, key) == Some(value),
            k != key ==> t1.get(c1, k) == t0.get(c0, k),
    {
    }

    /// Removing a key that was just inserted, where it was absent before,
    /// gives back every lookup as it was.
    pub proof fn lemma_insert_then_remove(
        t0: Self,
        c0: TxContext,
        t1: Self,
        c1: TxContext,
        t2: Self,
        c2: TxContext,
        key: K,
        value: V,
    )
        requires
            t0.get(c0, key) is None,
            Self::holds_insert(t0, c0, t1, c1, key, value),
            forall|k: K| #[trigger] t2.get(c2, k) == (if k == key { None } else { t1.get(c1, k) }),
        ensures
            forall|k: K| #[trigger] t2.get(c2, k) == t0.get(c0, k),
    {
        assert forall|k: K| #[trigger] t2.get(c2, k) == t0.get(c0, k) by {
            assert(t1.get(c1, k) == (if k == key { Some(value) } else { t0.get(c0, k) }));
        }
    }

    /// A tree depends only on its own blocks: where none of them changed,
    /// the tree is as well formed as it was, of the same height, over the
    /// same blocks, and holds the same values.
    pub proof fn lemma_unchanged(self, c1: TxContext, c2: TxContext)
        requires
            self.inv(c1),
            forall|x: u64| #[trigger] self.contains_block(c1, x) ==> c2.block(x) == c1.block(x),
        ensures
            self.inv(c2),
            self.height(c2) == self.height(c1),
            forall|x: u64| #[trigger] self.contains_block(c2, x) == self.contains_block(c1, x),
            forall|k: K| #[trigger] self.get(c2, k) == self.get(c1, k),
    {
        let h = self.height(c1);
        assert forall|x: u64| #[trigger] self.in_tree(c1, self.root_block, h, x) implies same_node::<K, V>(c1.block(x), c2.block(x)) by {
            assert(self.contains_block(c1, x));
        }
        self.lemma_frame(c1, c2, self.root_block, h, None, None);
        self.lemma_height(c2, h);
    }

    /// A subtree depends only on what its own blocks decode to.
    proof fn lemma_frame(
        self,
        c1: TxContext,
        c2: TxContext,
        b: u64,
        h: nat,
        lo: Option<int>,
        hi: Option<int>,
    )
        requires
            self.wf_at(c1, b, h, lo, hi),
            forall|x: u64| #[trigger]
                self.in_tree(c1, b, h, x) ==> same_node::<K, V>(c1.block(x), c2.block(x)),
        ensures
            self.wf_at(c2, b, h, lo, hi),
            forall|x: u64| #[trigger] self.in_tree(c2, b, h, x) == self.in_tree(c1, b, h, x),
            forall|k: K| #[trigger] self.lookup_at(c2, b, h, k) == self.lookup_at(c1, b, h, k),
        decreases h,
    {
        assert(self.in_tree(c1, b, h, b));
        let b1 = c1.block(b);
        let b2 = c2.block(b);
        assert(same_node::<K, V>(b1, b2));
        if h > 0 {
            let s = inner_items::<K>(b1);
            let lm = node_leftmost(b1);
            assert forall|i: int| 0 <= i <= s.len() implies {
                &&& self.wf_at(c2, child_at(lm, s, i), (h - 1) as nat, lo_at(lo, s, i), hi_at(hi, s, i))
                &&& forall|x: u64| #[trigger] self.in_tree(c2, child_at(lm, s, i), (h - 1) as nat, x)
                    == self.in_tree(c1, child_at(lm, s, i), (h - 1) as nat, x)
                &&& forall|k: K| #[trigger] self.lookup_at(c2, child_at(lm, s, i), (h - 1) as nat, k)
                    == self.lookup_at(c1, child_at(lm, s, i), (h - 1) as nat, k)
            } by {
                let c = child_at(lm, s, i);
                assert(self.wf_at(c1, c, (h - 1) as nat, lo_at(lo, s, i), hi_at(hi, s, i)));
                assert forall|x: u64| #[trigger] self.in_tree(c1, c, (h - 1) as nat, x) implies same_node::<K, V>(
                    c1.block(x),
                    c2.block(x),
                ) by {
                    assert(self.in_tree(c1, b, h, x));
                }
                self.lemma_frame(c1, c2, c, (h - 1) as nat, lo_at(lo, s, i), hi_at(hi, s, i));
            }
            assert forall|x: u64| #[trigger] self.in_tree(c2, b, h, x) == self.in_tree(c1, b, h, x) by {
                if x != b {
                    if self.in_tree(c1, b, h, x) {
                        let i = choose|i: int|
                            0 <= i <= s.len() && self.in_tree(
                                c1,
                                #[trigger] child_at(lm, s, i),
                                (h - 1) as nat,
                                x,
                            );
                        assert(self.in_tree(c2, child_at(lm, s, i), (h - 1) as nat, x));
                    }
                    if self.in_tree(c2, b, h, x) {
                        let i = choose|i: int|
                            0 <= i <= s.len() && self.in_tree(
                                c2,
                                #[trigger] child_at(lm, s, i),
                                (h - 1) as nat,
                                x,
                            );
                        assert(self.in_tree(c1, child_at(lm, s, i), (h - 1) as nat, x));
                    }
                }
            }
            assert forall|k: K| #[trigger] self.lookup_at(c2, b, h, k) == self.lookup_at(c1, b, h, k) by {
                lemma_route_range(s, k);
                let i = route(s, k);
                let c = child_at(lm, s, i);
                assert(self.lookup_at(c2, c, (h - 1) as nat, k) == self.lookup_at(c1, c, (h - 1) as nat, k));
            }
        }
    }

    /// `bytes` hold a node of this tree with no more items than fit.
    pub closed spec fn readable(self, bytes: Seq<u8>) -> bool {
        let hd = node_header(bytes);
        &&& hd.magic == BTREE_MAGIC
        &&& hd.node_type == self.node_type
        &&& node_csum_ok(bytes)
        &&& if hd.level == 0 {
            hd.item_count <= max_leaf::<K, V>()
        } else {
            hd.item_count <= max_inner::<K>()
        }
    }

    /// Reads and decodes the node in block `b`.
    fn read_node(&self, ctx: &TxContext, b: u64) -> (r: Result<Node<K, V>, FsError>)
        ensures
            r matches Ok(n) ==> {
                &&& n.shaped()
                &&& n.stored_in(ctx.block(b))
                &&& n.header.magic == BTREE_MAGIC
                &&& n.header.node_type == self.node_type
                &&& node_csum_ok(ctx.block(b))
            },
            self.readable(ctx.block(b)) ==> r is Ok,
            node_header(ctx.block(b)).magic == BTREE_MAGIC && node_header(ctx.block(b)).node_type == self.node_type
                && !node_csum_ok(ctx.block(b)) ==> r == Err::<Node<K, V>, FsError>(FsError::NodeChecksumMismatch),
            !(node_header(ctx.block(b)).magic == BTREE_MAGIC && node_header(ctx.block(b)).node_type == self.node_type)
                ==> r == Err::<Node<K, V>, FsError>(FsError::InvalidData),
            r matches Err(e) ==> e == FsError::InvalidData || e == FsError::NodeChecksumMismatch,
    {
        let bytes = ctx.read_block(b);
        let header = BTreeNodeHeader::decode_from(bytes.as_slice(), 0);
        assert(bytes@.subrange(0, 64) == bytes@.subrange(0int, 0int + 64));
        if header.magic != BTREE_MAGIC || header.node_type != self.node_type {
            return Err(FsError::InvalidData);
        }
        let zeroed = with_zero_field(&bytes, 16);
        if crc32(zeroed.as_slice()) != header.checksum {
            return Err(FsError::NodeChecksumMismatch);
        }
        let count = header.item_count as usize;
        if header.level == 0 {
            if count > Self::max_leaf_items() {
                return Err(FsError::InvalidData);
            }
            let s = K::size() + V::size();
            proof {
                lemma_capacity(BTREE_PAYLOAD_SIZE as int, s as int);
                lemma_mul_mono(count as int, max_leaf::<K, V>(), s as int);
            }
            let mut kvs: Vec<KVPair<K, V>> = Vec::new();
            let mut i: usize = 0;
            while i < count
                invariant
                    bytes@ == ctx.block(b),
                    bytes@.len() == BLOCK_SIZE,
                    header == node_header(bytes@),
                    count == header.item_count,
                    s == kv_size::<K, V>(),
                    count * s <= BTREE_PAYLOAD_SIZE,
                    i <= count,
                    kvs@ =~= leaf_items::<K, V>(bytes@).subrange(0, i as int),
                decreases count - i,
            {
                proof {
                    lemma_mul_step(i as int, s as int);
                    lemma_mul_mono(i as int + 1, count as int, s as int);
                }
                let off = 64 + i * s;
                let kv = decode_kv_at::<K, V>(bytes.as_slice(), off);
                kvs.push(kv);
                i = i + 1;
            }
            assert(kvs@ =~= leaf_items::<K, V>(bytes@));
            Ok(Node { header, leftmost: 0, kvs, kps: Vec::new() })
        } else {
            if count > Self::max_internal_items() {
                return Err(FsError::InvalidData);
            }
            let s = K::size() + 8;
            proof {
                lemma_capacity(BTREE_PAYLOAD_SIZE as int - 8, s as int);
                lemma_mul_mono(count as int, max_inner::<K>(), s as int);
            }
            let leftmost = get_u64(bytes.as_slice(), 64);
            let mut kps: Vec<KPtrPair<K>> = Vec::new();
            let mut i: usize = 0;
            while i < count
                invariant
                    bytes@ == ctx.block(b),
                    bytes@.len() == BLOCK_SIZE,
                    header == node_header(bytes@),
                    count == header.item_count,
                    s == kp_size::<K>(),
                    count * s <= BTREE_PAYLOAD_SIZE - 8,
                    i <= count,
                    kps@ =~= inner_items::<K>(bytes@).subrange(0, i as int),
                decreases count - i,
            {
                proof {
                    lemma_mul_step(i as int, s as int);
                    lemma_mul_mono(i as int + 1, count as int, s as int);
                }
                let off = 72 + i * s;
                let kp = decode_kp_at::<K>(bytes.as_slice(), off);
                kps.push(kp);
                i = i + 1;
            }
            assert(kps@ =~= inner_items::<K>(bytes@));
            Ok(Node { header, leftmost, kvs: Vec::new(), kps })
        }
    }

    /// Encodes `n` into block `b`.
    fn write_node(&self, ctx: &mut TxContext, b: u64, n: &Node<K, V>)
        requires
            n.shaped(),
        ensures
            n.stored_in(final(ctx).block(b)),
            node_csum_ok(final(ctx).block(b)),
            forall|x: u64| x != b ==> #[trigger] final(ctx).block(x) == old(ctx).block(x),
    {
        let mut bytes = encode_node(n);
        let ghost enc = bytes@;
        seal_node(&mut bytes);
        proof {
            lemma_seal_keeps_node(*n, enc, bytes@);
        }
        ctx.write_block(b, bytes.as_slice());
    }

    /// Points the parent link of the node in block `x` at `parent`.
    fn set_parent(&self, ctx: &mut TxContext, x: u64, parent: u64) -> (r: Result<(), FsError>)
        requires
            self.readable(old(ctx).block(x)),
        ensures
            r is Ok,
            same_node::<K, V>(old(ctx).block(x), final(ctx).block(x)),
            node_header(final(ctx).block(x)) == (BTreeNodeHeader {
                parent_block: parent,
                checksum: node_header(final(ctx).block(x)).checksum,
                ..node_header(old(ctx).block(x))
            }),
            node_csum_ok(final(ctx).block(x)),
            forall|y: u64| y != x ==> #[trigger] final(ctx).block(y) == old(ctx).block(y),
    {
        let mut node = match self.read_node(ctx, x) {
            Ok(n) => n,
            Err(e) => {
                return Err(e);
            },
        };
        node.header.parent_block = parent;
        self.write_node(ctx, x, &node);
        Ok(())
    }

    /// Points the parent link of every child of an internal node (leftmost
    /// child `lm`, separators `items`) at `parent`.
    fn reparent_children(
        &self,
        ctx: &mut TxContext,
        lm: u64,
        items: &Vec<KPtrPair<K>>,
        parent: u64,
        Ghost(c): Ghost<TxContext>,
        Ghost(hc): Ghost<nat>,
        Ghost(lo): Ghost<Option<int>>,
        Ghost(hi): Ghost<Option<int>>,
    ) -> (r: Result<(), FsError>)
        requires
            self.kids_ok(c, lm, items@, hc, lo, hi),
            items@.len() < max_inner::<K>(),
            forall|x: u64| #[trigger] self.kids_contain(c, lm, items@, hc, x) ==> same_node::<K, V>(c.block(x), old(ctx).block(x)),
        ensures
            r is Ok,
            forall|x: u64| #[trigger] same_node::<K, V>(old(ctx).block(x), final(ctx).block(x)),
            forall|x: u64| !self.kids_contain(c, lm, items@, hc, x) ==> #[trigger] final(ctx).block(x) == old(ctx).block(x),
            forall|i: int|
                0 <= i <= items@.len() ==> #[trigger] node_header(final(ctx).block(child_at(lm, items@, i))).parent_block
                    == parent,
    {
        let ghost c0 = *ctx;
        let n = items.len();
        proof {
            lemma_caps::<K, V>();
        }
        let mut j: usize = 0;
        while j <= n
            invariant
                n == items@.len(),
                n < 4096,
                j <= n + 1,
                self.kids_ok(c, lm, items@, hc, lo, hi),
                forall|x: u64| #[trigger] self.kids_contain(c, lm, items@, hc, x) ==> same_node::<K, V>(c.block(x), c0.block(x)),
                forall|x: u64| #[trigger] same_node::<K, V>(c0.block(x), ctx.block(x)),
                forall|x: u64| !self.kids_contain(c, lm, items@, hc, x) ==> #[trigger] ctx.block(x) == c0.block(x),
                forall|i: int|
                    0 <= i < j ==> #[trigger] node_header(ctx.block(child_at(lm, items@, i))).parent_block == parent,
            decreases n + 1 - j,
        {
            let x = if j == 0 {
                lm
            } else {
                items[j - 1].ptr
            };
            proof {
                assert(x == child_at(lm, items@, j as int));
                assert(self.wf_at(c, child_at(lm, items@, j as int), hc, lo_at(lo, items@, j as int), hi_at(hi, items@, j as int)));
                assert(self.in_tree(c, child_at(lm, items@, j as int), hc, x));
                assert(self.kids_contain(c, lm, items@, hc, x));
                assert(same_node::<K, V>(c.block(x), c0.block(x)));
                assert(same_node::<K, V>(c0.block(x), ctx.block(x)));
                assert(self.node_ok(c, x, hc));
            }
            let ghost before = *ctx;
            match self.set_parent(ctx, x, parent) {
                Ok(()) => {},
                Err(e) => {
                    return Err(e);
                },
            }
            proof {
                assert forall|y: u64| #[trigger] same_node::<K, V>(c0.block(y), ctx.block(y)) by {
                    if y == x {
                        assert(same_node::<K, V>(c0.block(y), before.block(y)));
                    } else {
                        assert(ctx.block(y) == before.block(y));
                    }
                }
                assert forall|y: u64| !self.kids_contain(c, lm, items@, hc, y) implies #[trigger] ctx.block(y) == c0.block(y) by {
                    assert(y != x);
                    assert(ctx.block(y) == before.block(y));
                }
                assert forall|i: int| 0 <= i < j + 1 implies #[trigger] node_header(
                    ctx.block(child_at(lm, items@, i)),
                ).parent_block == parent by {
                    if child_at(lm, items@, i) != x {
                        assert(ctx.block(child_at(lm, items@, i)) == before.block(child_at(lm, items@, i)));
                    }
                }
            }
            j = j + 1;
        }
        Ok(())
    }

    /// The value stored for `key`.
    ///
    /// A root block without this tree's magic and node type fails the lookup
    /// with `InvalidData`; one whose bytes no longer match its checksum with
    /// `NodeChecksumMismatch`.
    pub fn lookup(&self, ctx: &TxContext, key: &K) -> (r: Result<Option<V>, FsError>)
        requires
            self.inv(*ctx) || self.root_rejected(*ctx),
        ensures
            self.inv(*ctx) ==> r == Ok::<Option<V>, FsError>(self.get(*ctx, *key)),
            !(node_header(ctx.block(self.root_block)).magic == BTREE_MAGIC && node_header(
                ctx.block(self.root_block),
            ).node_type == self.node_type) ==> r == Err::<Option<V>, FsError>(FsError::InvalidData),
            self.root_damaged(*ctx) ==> r == Err::<Option<V>, FsError>(FsError::NodeChecksumMismatch),
    {
        let mut current = self.root_block;
        let mut node = match self.read_node(ctx, current) {
            Ok(n) => n,
            Err(e) => {
                return Err(e);
            },
        };
        assert(self.inv(*ctx));
        let ghost h0 = self.height(*ctx);
        let ghost mut h: nat = h0;
        let ghost mut lo: Option<int> = None;
        let ghost mut hi: Option<int> = None;
        loop
            invariant
                self.wf_at(*ctx, current, h, lo, hi),
                self.lookup_at(*ctx, current, h, *key) == self.get(*ctx, *key),
                node.shaped(),
                node.stored_in(ctx.block(current)),
                !self.root_rejected(*ctx),
            decreases h,
        {
            if node.header.level == 0 {
                proof {
                    lemma_leaf_find(node.kvs@, *key);
                }
                match search_kvs(&node.kvs, key) {
                    Ok(idx) => {
                        return Ok(Some(node.kvs[idx].value));
                    },
                    Err(_) => {
                        return Ok(None);
                    },
                }
            } else {
                let i = route_index(&node.kps, key);
                let next = if i == 0 {
                    node.leftmost
                } else {
                    node.kps[i - 1].ptr
                };
                proof {
                    let s = node.kps@;
                    assert(next == child_at(node.leftmost, s, i as int));
                    assert(self.wf_at(*ctx, child_at(node.leftmost, s, i as int), (h - 1) as nat, lo_at(lo, s, i as int), hi_at(hi, s, i as int)));
                    lo = lo_at(lo, s, i as int);
                    hi = hi_at(hi, s, i as int);
                    h = (h - 1) as nat;
                }
                current = next;
                node = match self.read_node(ctx, current) {
                    Ok(n) => n,
                    Err(e) => {
                        return Err(e);
                    },
                };
            }
        }
    }

    /// The value the subtree at `b` holds for `k` once `key` maps to `value`.
    pub closed spec fn updated(self, c0: TxContext, b: u64, h: nat, key: K, value: V, k: K) -> Option<
        V,
    > {
        if k == key {
            Some(value)
        } else {
            self.lookup_at(c0, b, h, k)
        }
    }

    /// What inserting `key` into the subtree at `b` (bounds `[lo, hi)`) leaves
    /// behind: either the same subtree updated, or the subtree split in two at
    /// the returned separator, the new right half at the returned block.
    pub closed spec fn insert_post<A: BlockAllocator>(
        self,
        c0: TxContext,
        c1: TxContext,
        a0: A,
        a1: A,
        b: u64,
        h: nat,
        lo: Option<int>,
        hi: Option<int>,
        key: K,
        value: V,
        r: Result<Option<(K, u64)>, FsError>,
    ) -> bool {
        &&& forall|x: u64| a0.avoids(x) ==> #[trigger] a1.avoids(x)
        &&& forall|x: u64| !self.in_tree(c0, b, h, x) && a0.avoids(x) ==> #[trigger] c1.block(x) == c0.block(x)
        &&& a0.can_supply(h + 1) ==> r is Ok
        &&& !a0.can_supply(1) ==> match r {
            Ok(Some(_)) => false,
            Ok(None) => true,
            Err(_) => c1 == c0,
        }
        &&& forall|n: nat| a0.can_supply(n + h + 1) ==> #[trigger] a1.can_supply(n)
        &&& match r {
            Ok(None) => {
                &&& self.wf_at(c1, b, h, lo, hi)
                &&& forall|k: K| #[trigger] self.lookup_at(c1, b, h, k) == self.updated(c0, b, h, key, value, k)
                &&& forall|x: u64|
                    #[trigger] self.in_tree(c1, b, h, x) ==> a1.avoids(x) && (self.in_tree(c0, b, h, x) || !a0.avoids(x))
            },
            Ok(Some((s, rb))) => {
                &&& in_bounds(lo, hi, s.rank())
                &&& lo matches Some(l) ==> l < s.rank()
                &&& self.wf_at(c1, b, h, lo, Some(s.rank()))
                &&& self.wf_at(c1, rb, h, Some(s.rank()), hi)
                &&& forall|x: u64| !(#[trigger] self.in_tree(c1, b, h, x) && self.in_tree(c1, rb, h, x))
                &&& forall|k: K| k.rank() < s.rank() ==> #[trigger] self.lookup_at(c1, b, h, k) == self.updated(c0, b, h, key, value, k)
                &&& forall|k: K| k.rank() >= s.rank() ==> #[trigger] self.lookup_at(c1, rb, h, k) == self.updated(c0, b, h, key, value, k)
                &&& forall|x: u64|
                    #[trigger] self.in_tree(c1, b, h, x) ==> a1.avoids(x) && (self.in_tree(c0, b, h, x) || !a0.avoids(x))
                &&& forall|x: u64|
                    #[trigger] self.in_tree(c1, rb, h, x) ==> a1.avoids(x) && (self.in_tree(c0, b, h, x) || !a0.avoids(x))
            },
            Err(_) => true,
        }
    }

    /// A node's subtree holds its own block and the subtrees of its children.
    proof fn lemma_in_tree_child(self, c: TxContext, b: u64, h: nat, i: int, x: u64)
        requires
            h > 0,
            0 <= i <= inner_items::<K>(c.block(b)).len(),
            self.in_tree(c, child_at(node_leftmost(c.block(b)), inner_items::<K>(c.block(b)), i), (h - 1) as nat, x),
        ensures
            self.in_tree(c, b, h, x),
    {
    }

    /// When the child that covers `key` took the insertion without splitting,
    /// the node at `b` did too.
    proof fn lemma_child_updated<A: BlockAllocator>(
        self,
        c0: TxContext,
        c1: TxContext,
        a0: A,
        a1: A,
        b: u64,
        h: nat,
        lo: Option<int>,
        hi: Option<int>,
        key: K,
        value: V,
    )
        requires
            h > 0,
            self.wf_at(c0, b, h, lo, hi),
            forall|x: u64| self.in_tree(c0, b, h, x) ==> a0.avoids(x),
            ({
                let s = inner_items::<K>(c0.block(b));
                let i = route(s, key);
                self.insert_post(
                    c0,
                    c1,
                    a0,
                    a1,
                    child_at(node_leftmost(c0.block(b)), s, i),
                    (h - 1) as nat,
                    lo_at(lo, s, i),
                    hi_at(hi, s, i),
                    key,
                    value,
                    Ok(None),
                )
            }),
        ensures
            self.insert_post(c0, c1, a0, a1, b, h, lo, hi, key, value, Ok(None)),
    {
        let by = c0.block(b);
        let s = inner_items::<K>(by);
        let lm = node_leftmost(by);
        let hc = (h - 1) as nat;
        let i = route(s, key);
        let ci = child_at(lm, s, i);
        lemma_route_range(s, key);
        assert(self.in_tree(c0, b, h, b));
        assert(c1.block(b) == c0.block(b)) by {
            assert(!self.in_tree(c0, ci, hc, b));
        }
        // The other children are untouched.
        assert forall|j: int| 0 <= j <= s.len() && j != i implies {
            &&& self.wf_at(c1, #[trigger] child_at(lm, s, j), hc, lo_at(lo, s, j), hi_at(hi, s, j))
            &&& forall|x: u64| self.in_tree(c1, child_at(lm, s, j), hc, x) == self.in_tree(c0, child_at(lm, s, j), hc, x)
            &&& forall|k: K| self.lookup_at(c1, child_at(lm, s, j), hc, k) == self.lookup_at(c0, child_at(lm, s, j), hc, k)
        } by {
            let cj = child_at(lm, s, j);
            assert(self.wf_at(c0, cj, hc, lo_at(lo, s, j), hi_at(hi, s, j)));
            assert forall|x: u64| self.in_tree(c0, cj, hc, x) implies same_node::<K, V>(c0.block(x), c1.block(x)) by {
                self.lemma_in_tree_child(c0, b, h, j, x);
                if i < j {
                    assert(!(self.in_tree(c0, child_at(lm, s, i), hc, x) && self.in_tree(c0, child_at(lm, s, j), hc, x)));
                } else {
                    assert(!(self.in_tree(c0, child_at(lm, s, j), hc, x) && self.in_tree(c0, child_at(lm, s, i), hc, x)));
                }
                assert(c1.block(x) == c0.block(x));
            }
            self.lemma_frame(c0, c1, cj, hc, lo_at(lo, s, j), hi_at(hi, s, j));
        }
        assert(self.wf_at(c1, ci, hc, lo_at(lo, s, i), hi_at(hi, s, i)));
        assert forall|j: int| 0 <= j <= s.len() implies !self.in_tree(c1, #[trigger] child_at(lm, s, j), hc, b) by {
            if j != i {
                assert(!self.in_tree(c0, child_at(lm, s, j), hc, b));
            }
        }
        assert forall|j1: int, j2: int, x: u64| 0 <= j1 < j2 <= s.len() implies !(self.in_tree(c1, child_at(lm, s, j1), hc, x)
            && self.in_tree(c1, child_at(lm, s, j2), hc, x)) by {
            if self.in_tree(c1, child_at(lm, s, j1), hc, x) && self.in_tree(c1, child_at(lm, s, j2), hc, x) {
                if j1 == i {
                    assert(self.in_tree(c0, child_at(lm, s, j2), hc, x));
                    self.lemma_in_tree_child(c0, b, h, j2, x);
                    assert(!self.in_tree(c0, ci, hc, x));
                } else if j2 == i {
                    assert(self.in_tree(c0, child_at(lm, s, j1), hc, x));
                    self.lemma_in_tree_child(c0, b, h, j1, x);
                    assert(!self.in_tree(c0, ci, hc, x));
                } else {
                    assert(self.in_tree(c0, child_at(lm, s, j1), hc, x));
                    assert(self.in_tree(c0, child_at(lm, s, j2), hc, x));
                }
            }
        }
        assert(self.wf_at(c1, b, h, lo, hi));
        assert forall|k: K| #[trigger] self.lookup_at(c1, b, h, k) == self.updated(c0, b, h, key, value, k) by {
            lemma_route_range(s, k);
            let j = route(s, k);
            if j != i {
                assert(k != key);
                assert(self.lookup_at(c1, child_at(lm, s, j), hc, k) == self.lookup_at(c0, child_at(lm, s, j), hc, k));
            } else {
                assert(self.lookup_at(c1, ci, hc, k) == self.updated(c0, ci, hc, key, value, k));
            }
        }
        assert forall|x: u64| #[trigger] self.in_tree(c1, b, h, x) implies a1.avoids(x) && (self.in_tree(c0, b, h, x)
            || !a0.avoids(x)) by {
            if x != b {
                let j = choose|j: int| 0 <= j <= s.len() && self.in_tree(c1, #[trigger] child_at(lm, s, j), hc, x);
                if j != i {
                    assert(self.in_tree(c0, child_at(lm, s, j), hc, x));
                    self.lemma_in_tree_child(c0, b, h, j, x);
                } else {
                    assert(self.in_tree(c1, ci, hc, x));
                    if self.in_tree(c0, ci, hc, x) {
                        self.lemma_in_tree_child(c0, b, h, i, x);
                    }
                }
            }
        }
        assert forall|x: u64| !self.in_tree(c0, b, h, x) && a0.avoids(x) implies #[trigger] c1.block(x) == c0.block(x) by {
            if self.in_tree(c0, ci, hc, x) {
                self.lemma_in_tree_child(c0, b, h, i, x);
            }
        }
        assert forall|n: nat| a0.can_supply(n + h + 1) implies #[trigger] a1.can_supply(n) by {
            assert(a0.can_supply((n + 1) + hc + 1));
            assert(a1.can_supply(n + 1));
            a1.lemma_supply_mono(n);
        }
    }

    /// The children of an internal node with leftmost child `lm` and separators
    /// `t` form well-formed, disjoint subtrees of height `hc` within `[lo, hi)`.
    pub closed spec fn kids_ok(self, c: TxContext, lm: u64, t: Seq<KPtrPair<K>>, hc: nat, lo: Option<int>, hi: Option<int>) -> bool {
        &&& kp_sorted(t)
        &&& forall|j: int| 0 <= j < t.len() ==> in_bounds(lo, hi, #[trigger] t[j].key.rank())
        &&& forall|j: int|
            0 <= j <= t.len() ==> self.wf_at(c, #[trigger] child_at(lm, t, j), hc, lo_at(lo, t, j), hi_at(hi, t, j))
        &&& forall|j1: int, j2: int, x: u64|
            #![trigger self.in_tree(c, child_at(lm, t, j1), hc, x), self.in_tree(c, child_at(lm, t, j2), hc, x)]
            0 <= j1 < j2 <= t.len() ==> !(self.in_tree(c, child_at(lm, t, j1), hc, x) && self.in_tree(c, child_at(lm, t, j2), hc, x))
    }

    /// Block `x` belongs to the subtree of one of the children.
    pub closed spec fn kids_contain(self, c: TxContext, lm: u64, t: Seq<KPtrPair<K>>, hc: nat, x: u64) -> bool {
        exists|j: int| 0 <= j <= t.len() && self.in_tree(c, #[trigger] child_at(lm, t, j), hc, x)
    }

    /// The value that the child covering `k` holds for it.
    pub closed spec fn kids_lookup(self, c: TxContext, lm: u64, t: Seq<KPtrPair<K>>, hc: nat, k: K) -> Option<V> {
        self.lookup_at(c, child_at(lm, t, route(t, k)), hc, k)
    }

    /// A block that decodes to an internal node over well-formed children is
    /// a well-formed subtree, made of its block and the children's.
    proof fn lemma_node_over_kids(self, c1: TxContext, c2: TxContext, w: u64, h: nat, lm: u64, t: Seq<KPtrPair<K>>, lo: Option<int>, hi: Option<int>)
        requires
            h > 0,
            self.kids_ok(c1, lm, t, (h - 1) as nat, lo, hi),
            forall|x: u64| self.kids_contain(c1, lm, t, (h - 1) as nat, x) ==> same_node::<K, V>(c1.block(x), c2.block(x)),
            !self.kids_contain(c1, lm, t, (h - 1) as nat, w),
            w != 0,
            node_header(c2.block(w)).magic == BTREE_MAGIC,
            node_header(c2.block(w)).node_type == self.node_type,
            node_csum_ok(c2.block(w)),
            node_header(c2.block(w)).level != 0,
            node_header(c2.block(w)).item_count == t.len(),
            t.len() < max_inner::<K>(),
            node_leftmost(c2.block(w)) == lm,
            inner_items::<K>(c2.block(w)) == t,
        ensures
            self.wf_at(c2, w, h, lo, hi),
            forall|x: u64| #[trigger] self.in_tree(c2, w, h, x) == (x == w || self.kids_contain(c1, lm, t, (h - 1) as nat, x)),
            forall|k: K| #[trigger] self.lookup_at(c2, w, h, k) == self.kids_lookup(c1, lm, t, (h - 1) as nat, k),
    {
        let hc = (h - 1) as nat;
        assert forall|j: int| 0 <= j <= t.len() implies {
            &&& self.wf_at(c2, #[trigger] child_at(lm, t, j), hc, lo_at(lo, t, j), hi_at(hi, t, j))
            &&& forall|x: u64| self.in_tree(c2, child_at(lm, t, j), hc, x) == self.in_tree(c1, child_at(lm, t, j), hc, x)
            &&& forall|k: K| self.lookup_at(c2, child_at(lm, t, j), hc, k) == self.lookup_at(c1, child_at(lm, t, j), hc, k)
        } by {
            let cj = child_at(lm, t, j);
            assert(self.wf_at(c1, cj, hc, lo_at(lo, t, j), hi_at(hi, t, j)));
            assert forall|x: u64| self.in_tree(c1, cj, hc, x) implies same_node::<K, V>(c1.block(x), c2.block(x)) by {
                assert(self.kids_contain(c1, lm, t, hc, x));
            }
            self.lemma_frame(c1, c2, cj, hc, lo_at(lo, t, j), hi_at(hi, t, j));
        }
        assert forall|j: int| 0 <= j <= t.len() implies !self.in_tree(c2, #[trigger] child_at(lm, t, j), hc, w) by {
            if self.in_tree(c1, child_at(lm, t, j), hc, w) {
                assert(self.kids_contain(c1, lm, t, hc, w));
            }
        }
        assert forall|j1: int, j2: int, x: u64| 0 <= j1 < j2 <= t.len() implies !(self.in_tree(c2, child_at(lm, t, j1), hc, x)
            && self.in_tree(c2, child_at(lm, t, j2), hc, x)) by {
            assert(!(self.in_tree(c1, child_at(lm, t, j1), hc, x) && self.in_tree(c1, child_at(lm, t, j2), hc, x)));
        }
        assert(self.wf_at(c2, w, h, lo, hi));
        assert forall|x: u64| #[trigger] self.in_tree(c2, w, h, x) == (x == w || self.kids_contain(c1, lm, t, hc, x)) by {
            if x != w {
                if self.in_tree(c2, w, h, x) {
                    let j = choose|j: int| 0 <= j <= t.len() && self.in_tree(c2, #[trigger] child_at(lm, t, j), hc, x);
                    assert(self.in_tree(c1, child_at(lm, t, j), hc, x));
                }
                if self.kids_contain(c1, lm, t, hc, x) {
                    let j = choose|j: int| 0 <= j <= t.len() && self.in_tree(c1, #[trigger] child_at(lm, t, j), hc, x);
                    assert(self.in_tree(c2, child_at(lm, t, j), hc, x));
                }
            }
        }
        assert forall|k: K| #[trigger] self.lookup_at(c2, w, h, k) == self.kids_lookup(c1, lm, t, hc, k) by {
            lemma_route_range(t, k);
            let j = route(t, k);
            assert(self.lookup_at(c2, child_at(lm, t, j), hc, k) == self.lookup_at(c1, child_at(lm, t, j), hc, k));
        }
    }

    /// Splitting the children at separator `mid` gives two well-formed families
    /// that share no block and that each answer for their side of the separator.
    #[verifier::spinoff_prover]
    #[verifier::rlimit(40)]
    proof fn lemma_kids_split(self, c: TxContext, lm: u64, t: Seq<KPtrPair<K>>, hc: nat, lo: Option<int>, hi: Option<int>, mid: int)
        requires
            self.kids_ok(c, lm, t, hc, lo, hi),
            0 <= mid < t.len(),
        ensures
            self.kids_ok(c, lm, t.subrange(0, mid), hc, lo, Some(t[mid].key.rank())),
            self.kids_ok(c, t[mid].ptr, t.subrange(mid + 1, t.len() as int), hc, Some(t[mid].key.rank()), hi),
            forall|x: u64| #[trigger] self.kids_contain(c, lm, t, hc, x) == (self.kids_contain(c, lm, t.subrange(0, mid), hc, x)
                || self.kids_contain(c, t[mid].ptr, t.subrange(mid + 1, t.len() as int), hc, x)),
            forall|x: u64| !(#[trigger] self.kids_contain(c, lm, t.subrange(0, mid), hc, x)
                && self.kids_contain(c, t[mid].ptr, t.subrange(mid + 1, t.len() as int), hc, x)),
            forall|k: K| k.rank() < t[mid].key.rank() ==> #[trigger] self.kids_lookup(c, lm, t.subrange(0, mid), hc, k)
                == self.kids_lookup(c, lm, t, hc, k),
            forall|k: K| k.rank() >= t[mid].key.rank() ==> #[trigger] self.kids_lookup(c, t[mid].ptr, t.subrange(mid + 1, t.len() as int), hc, k)
                == self.kids_lookup(c, lm, t, hc, k),
    {
        let tl = t.subrange(0, mid);
        let tr = t.subrange(mid + 1, t.len() as int);
        let rl = t[mid].ptr;
        let sr = Some(t[mid].key.rank());
        assert forall|j: int| 0 <= j < tl.len() implies in_bounds(lo, sr, #[trigger] tl[j].key.rank()) by {
            assert(tl[j] == t[j]);
        }
        assert forall|j: int| 0 <= j < tr.len() implies in_bounds(sr, hi, #[trigger] tr[j].key.rank()) by {
            assert(tr[j] == t[mid + 1 + j]);
        }
        assert forall|j: int| 0 <= j <= tl.len() implies self.wf_at(c, #[trigger] child_at(lm, tl, j), hc, lo_at(lo, tl, j), hi_at(sr, tl, j)) by {
            lemma_split_index(t, mid, lm, lo, hi, j);
            assert(self.wf_at(c, child_at(lm, t, j), hc, lo_at(lo, t, j), hi_at(hi, t, j)));
        }
        assert forall|j: int| 0 <= j <= tr.len() implies self.wf_at(c, #[trigger] child_at(rl, tr, j), hc, lo_at(sr, tr, j), hi_at(hi, tr, j)) by {
            lemma_split_index(t, mid, lm, lo, hi, j);
            assert(self.wf_at(c, child_at(lm, t, mid + 1 + j), hc, lo_at(lo, t, mid + 1 + j), hi_at(hi, t, mid + 1 + j)));
        }
        assert forall|j1: int, j2: int, x: u64| 0 <= j1 < j2 <= tl.len() implies !(self.in_tree(c, child_at(lm, tl, j1), hc, x)
            && self.in_tree(c, child_at(lm, tl, j2), hc, x)) by {
            lemma_split_index(t, mid, lm, lo, hi, j1);
            lemma_split_index(t, mid, lm, lo, hi, j2);
            assert(!(self.in_tree(c, child_at(lm, t, j1), hc, x) && self.in_tree(c, child_at(lm, t, j2), hc, x)));
        }
        assert forall|j1: int, j2: int, x: u64| 0 <= j1 < j2 <= tr.len() implies !(self.in_tree(c, child_at(rl, tr, j1), hc, x)
            && self.in_tree(c, child_at(rl, tr, j2), hc, x)) by {
            lemma_split_index(t, mid, lm, lo, hi, j1);
            lemma_split_index(t, mid, lm, lo, hi, j2);
            assert(!(self.in_tree(c, child_at(lm, t, mid + 1 + j1), hc, x) && self.in_tree(c, child_at(lm, t, mid + 1 + j2), hc, x)));
        }
        assert(kp_sorted(tl));
        assert(kp_sorted(tr)) by {
            assert forall|a: int, b: int| 0 <= a < b < tr.len() implies tr[a].key.rank() < tr[b].key.rank() by {
                assert(tr[a] == t[mid + 1 + a]);
                assert(tr[b] == t[mid + 1 + b]);
            }
        }
        assert forall|x: u64| #[trigger] self.kids_contain(c, lm, t, hc, x) == (self.kids_contain(c, lm, tl, hc, x)
            || self.kids_contain(c, rl, tr, hc, x)) by {
            if self.kids_contain(c, lm, t, hc, x) {
                let j = choose|j: int| 0 <= j <= t.len() && self.in_tree(c, #[trigger] child_at(lm, t, j), hc, x);
                if j <= mid {
                    lemma_split_index(t, mid, lm, lo, hi, j);
                    assert(self.in_tree(c, child_at(lm, tl, j), hc, x));
                } else {
                    lemma_split_index(t, mid, lm, lo, hi, j - mid - 1);
                    assert(self.in_tree(c, child_at(rl, tr, j - mid - 1), hc, x));
                }
            }
            if self.kids_contain(c, lm, tl, hc, x) {
                let j = choose|j: int| 0 <= j <= tl.len() && self.in_tree(c, #[trigger] child_at(lm, tl, j), hc, x);
                lemma_split_index(t, mid, lm, lo, hi, j);
                assert(self.in_tree(c, child_at(lm, t, j), hc, x));
            }
            if self.kids_contain(c, rl, tr, hc, x) {
                let j = choose|j: int| 0 <= j <= tr.len() && self.in_tree(c, #[trigger] child_at(rl, tr, j), hc, x);
                lemma_split_index(t, mid, lm, lo, hi, j);
                assert(self.in_tree(c, child_at(lm, t, mid + 1 + j), hc, x));
            }
        }
        assert forall|x: u64| !(#[trigger] self.kids_contain(c, lm, tl, hc, x) && self.kids_contain(c, rl, tr, hc, x)) by {
            if self.kids_contain(c, lm, tl, hc, x) && self.kids_contain(c, rl, tr, hc, x) {
                let j1 = choose|j: int| 0 <= j <= tl.len() && self.in_tree(c, #[trigger] child_at(lm, tl, j), hc, x);
                let j2 = choose|j: int| 0 <= j <= tr.len() && self.in_tree(c, #[trigger] child_at(rl, tr, j), hc, x);
                lemma_split_index(t, mid, lm, lo, hi, j1);
                lemma_split_index(t, mid, lm, lo, hi, j2);
                assert(!(self.in_tree(c, child_at(lm, t, j1), hc, x) && self.in_tree(c, child_at(lm, t, mid + 1 + j2), hc, x)));
            }
        }
        assert forall|k: K| k.rank() < t[mid].key.rank() implies #[trigger] self.kids_lookup(c, lm, tl, hc, k)
            == self.kids_lookup(c, lm, t, hc, k) by {
            lemma_route_range(t, k);
            let j = route(t, k);
            if j > 0 {
                assert(tl[j - 1] == t[j - 1]);
            }
            if j < mid {
                assert(tl[j] == t[j]);
            }
            lemma_route_char(tl, k, j);
            lemma_split_index(t, mid, lm, lo, hi, j);
        }
        assert forall|k: K| k.rank() >= t[mid].key.rank() implies #[trigger] self.kids_lookup(c, rl, tr, hc, k)
            == self.kids_lookup(c, lm, t, hc, k) by {
            lemma_route_range(t, k);
            let j = route(t, k);
            assert(j > mid) by {
                if j <= mid {
                    assert(t[j].key.rank() <= t[mid].key.rank());
                }
            }
            let jr = j - mid - 1;
            if jr > 0 {
                assert(tr[jr - 1] == t[j - 1]);
            }
            if jr < tr.len() {
                assert(tr[jr] == t[j]);
            }
            lemma_route_char(tr, k, jr);
            lemma_split_index(t, mid, lm, lo, hi, jr);
        }
    }

    /// What the insertion into the covering child changed outside the node at
    /// `b` stays within the blocks of `b`'s subtree or ones newly allocated.
    proof fn lemma_child_frame<A: BlockAllocator>(
        self,
        c0: TxContext,
        c1: TxContext,
        a0: A,
        a1: A,
        b: u64,
        h: nat,
        lo: Option<int>,
        hi: Option<int>,
        key: K,
        value: V,
        r: Result<Option<(K, u64)>, FsError>,
    )
        requires
            h > 0,
            self.wf_at(c0, b, h, lo, hi),
            ({
                let s = inner_items::<K>(c0.block(b));
                let i = route(s, key);
                self.insert_post(
                    c0,
                    c1,
                    a0,
                    a1,
                    child_at(node_leftmost(c0.block(b)), s, i),
                    (h - 1) as nat,
                    lo_at(lo, s, i),
                    hi_at(hi, s, i),
                    key,
                    value,
                    r,
                )
            }),
        ensures
            forall|x: u64| a0.avoids(x) ==> #[trigger] a1.avoids(x),
            forall|x: u64| !self.in_tree(c0, b, h, x) && a0.avoids(x) ==> #[trigger] c1.block(x) == c0.block(x),
            a0.can_supply(h) ==> r is Ok,
            forall|n: nat| a0.can_supply(n + h) ==> #[trigger] a1.can_supply(n),
    {
        let s = inner_items::<K>(c0.block(b));
        let i = route(s, key);
        let hc = (h - 1) as nat;
        lemma_route_range(s, key);
        assert forall|x: u64| !self.in_tree(c0, b, h, x) && a0.avoids(x) implies #[trigger] c1.block(x) == c0.block(x) by {
            if self.in_tree(c0, child_at(node_leftmost(c0.block(b)), s, i), hc, x) {
                self.lemma_in_tree_child(c0, b, h, i, x);
            }
        }
        assert forall|n: nat| a0.can_supply(n + h) implies #[trigger] a1.can_supply(n) by {
            assert(a0.can_supply(n + hc + 1));
        }
    }

    /// When the child that covers `key` split in two, the node's separators
    /// with the new one inserted before the right half describe well-formed
    /// children that hold the updated contents.
    #[verifier::spinoff_prover]
    #[verifier::rlimit(40)]
    proof fn lemma_child_split<A: BlockAllocator>(
        self,
        c0: TxContext,
        c1: TxContext,
        a0: A,
        a1: A,
        b: u64,
        h: nat,
        lo: Option<int>,
        hi: Option<int>,
        key: K,
        value: V,
        sep: K,
        rb: u64,
    )
        requires
            h > 0,
            self.wf_at(c0, b, h, lo, hi),
            forall|x: u64| self.in_tree(c0, b, h, x) ==> a0.avoids(x),
            ({
                let s = inner_items::<K>(c0.block(b));
                let i = route(s, key);
                self.insert_post(
                    c0,
                    c1,
                    a0,
                    a1,
                    child_at(node_leftmost(c0.block(b)), s, i),
                    (h - 1) as nat,
                    lo_at(lo, s, i),
                    hi_at(hi, s, i),
                    key,
                    value,
                    Ok(Some((sep, rb))),
                )
            }),
        ensures
            ({
                let s = inner_items::<K>(c0.block(b));
                let lm = node_leftmost(c0.block(b));
                let i = route(s, key);
                let t = s.insert(i, KPtrPair { key: sep, ptr: rb });
                let hc = (h - 1) as nat;
                &&& 0 <= i <= s.len()
                &&& i == 0 || s[i - 1].key.rank() < sep.rank()
                &&& i == s.len() || sep.rank() < s[i].key.rank()
                &&& c1.block(b) == c0.block(b)
                &&& self.kids_ok(c1, lm, t, hc, lo, hi)
                &&& !self.kids_contain(c1, lm, t, hc, b)
                &&& forall|x: u64| #[trigger] self.kids_contain(c1, lm, t, hc, x) ==> a1.avoids(x) && (
                    self.in_tree(c0, b, h, x) || !a0.avoids(x))
                &&& forall|k: K| #[trigger] self.kids_lookup(c1, lm, t, hc, k) == self.updated(
                    c0,
                    b,
                    h,
                    key,
                    value,
                    k,
                )
            }),
    {
        let by = c0.block(b);
        let s = inner_items::<K>(by);
        let lm = node_leftmost(by);
        let hc = (h - 1) as nat;
        let i = route(s, key);
        let ci = child_at(lm, s, i);
        let e = KPtrPair { key: sep, ptr: rb };
        let t = s.insert(i, e);
        lemma_route_range(s, key);
        lemma_route_insert(s, i, e, key);
        s.insert_ensures(i, e);
        assert(self.in_tree(c0, b, h, b));
        assert(c1.block(b) == c0.block(b)) by {
            assert(!self.in_tree(c0, ci, hc, b));
        }
        // The children other than the split one are untouched.
        assert forall|j: int| 0 <= j <= s.len() && j != i implies {
            &&& self.wf_at(c1, #[trigger] child_at(lm, s, j), hc, lo_at(lo, s, j), hi_at(hi, s, j))
            &&& forall|x: u64| self.in_tree(c1, child_at(lm, s, j), hc, x) == self.in_tree(c0, child_at(lm, s, j), hc, x)
            &&& forall|k: K| self.lookup_at(c1, child_at(lm, s, j), hc, k) == self.lookup_at(c0, child_at(lm, s, j), hc, k)
        } by {
            let cj = child_at(lm, s, j);
            assert(self.wf_at(c0, cj, hc, lo_at(lo, s, j), hi_at(hi, s, j)));
            assert forall|x: u64| self.in_tree(c0, cj, hc, x) implies same_node::<K, V>(c0.block(x), c1.block(x)) by {
                self.lemma_in_tree_child(c0, b, h, j, x);
                if i < j {
                    assert(!(self.in_tree(c0, child_at(lm, s, i), hc, x) && self.in_tree(c0, child_at(lm, s, j), hc, x)));
                } else {
                    assert(!(self.in_tree(c0, child_at(lm, s, j), hc, x) && self.in_tree(c0, child_at(lm, s, i), hc, x)));
                }
                assert(c1.block(x) == c0.block(x));
            }
            self.lemma_frame(c0, c1, cj, hc, lo_at(lo, s, j), hi_at(hi, s, j));
        }
        // The new separator lies within the node's bounds.
        assert(in_bounds(lo, hi, sep.rank())) by {
            if i > 0 {
                assert(in_bounds(lo, hi, s[i - 1].key.rank()));
            }
            if i < s.len() {
                assert(in_bounds(lo, hi, s[i].key.rank()));
            }
        }
        assert forall|j: int| 0 <= j < t.len() implies in_bounds(lo, hi, #[trigger] t[j].key.rank()) by {
            if j < i {
                assert(t[j] == s[j]);
            } else if j > i {
                assert(t[j] == s[j - 1]);
            }
        }
        assert forall|j: int| 0 <= j <= t.len() implies self.wf_at(c1, #[trigger] child_at(lm, t, j), hc, lo_at(lo, t, j), hi_at(hi, t, j)) by {
            lemma_insert_index(s, i, e, lm, lo, hi, j);
            if j < i {
                assert(self.wf_at(c1, child_at(lm, s, j), hc, lo_at(lo, s, j), hi_at(hi, s, j)));
            } else if j > i + 1 {
                assert(self.wf_at(c1, child_at(lm, s, j - 1), hc, lo_at(lo, s, j - 1), hi_at(hi, s, j - 1)));
            }
        }
        // Where a block of the new family lies.
        assert forall|j: int, x: u64| 0 <= j <= t.len() && #[trigger] self.in_tree(c1, child_at(lm, t, j), hc, x) implies {
            &&& a1.avoids(x)
            &&& self.in_tree(c0, b, h, x) || !a0.avoids(x)
            &&& (j != i && j != i + 1) ==> self.in_tree(c0, b, h, x) && !self.in_tree(c0, ci, hc, x)
        } by {
            lemma_insert_index(s, i, e, lm, lo, hi, j);
            if j == i {
                if self.in_tree(c0, ci, hc, x) {
                    self.lemma_in_tree_child(c0, b, h, i, x);
                }
            } else if j == i + 1 {
                if self.in_tree(c0, ci, hc, x) {
                    self.lemma_in_tree_child(c0, b, h, i, x);
                }
            } else {
                let jj = if j < i { j } else { j - 1 };
                assert(self.in_tree(c0, child_at(lm, s, jj), hc, x));
                self.lemma_in_tree_child(c0, b, h, jj, x);
                if jj < i {
                    assert(!(self.in_tree(c0, child_at(lm, s, jj), hc, x) && self.in_tree(c0, child_at(lm, s, i), hc, x)));
                } else {
                    assert(!(self.in_tree(c0, child_at(lm, s, i), hc, x) && self.in_tree(c0, child_at(lm, s, jj), hc, x)));
                }
            }
        }
        assert forall|j1: int, j2: int, x: u64| 0 <= j1 < j2 <= t.len() implies !(self.in_tree(c1, child_at(lm, t, j1), hc, x)
            && self.in_tree(c1, child_at(lm, t, j2), hc, x)) by {
            if self.in_tree(c1, child_at(lm, t, j1), hc, x) && self.in_tree(c1, child_at(lm, t, j2), hc, x) {
                lemma_insert_index(s, i, e, lm, lo, hi, j1);
                lemma_insert_index(s, i, e, lm, lo, hi, j2);
                let o1 = if j1 <= i { j1 } else { j1 - 1 };
                let o2 = if j2 <= i { j2 } else { j2 - 1 };
                if j1 == i && j2 == i + 1 {
                    assert(!(self.in_tree(c1, ci, hc, x) && self.in_tree(c1, rb, hc, x)));
                } else if (j1 == i || j1 == i + 1) {
                    assert(!self.in_tree(c0, ci, hc, x));
                    assert(self.in_tree(c0, b, h, x));
                    assert(a0.avoids(x));
                } else if (j2 == i || j2 == i + 1) {
                    assert(!self.in_tree(c0, ci, hc, x));
                    assert(self.in_tree(c0, b, h, x));
                    assert(a0.avoids(x));
                } else {
                    assert(o1 < o2);
                    assert(self.in_tree(c0, child_at(lm, s, o1), hc, x));
                    assert(self.in_tree(c0, child_at(lm, s, o2), hc, x));
                }
            }
        }
        assert(self.kids_ok(c1, lm, t, hc, lo, hi));
        assert(!self.kids_contain(c1, lm, t, hc, b)) by {
            if self.kids_contain(c1, lm, t, hc, b) {
                let j = choose|j: int| 0 <= j <= t.len() && self.in_tree(c1, #[trigger] child_at(lm, t, j), hc, b);
                lemma_insert_index(s, i, e, lm, lo, hi, j);
                if j != i && j != i + 1 {
                    let jj = if j < i { j } else { j - 1 };
                    assert(self.in_tree(c0, child_at(lm, s, jj), hc, b));
                }
                assert(!self.in_tree(c0, ci, hc, b));
            }
        }
        assert forall|x: u64| #[trigger] self.kids_contain(c1, lm, t, hc, x) implies a1.avoids(x) && (
            self.in_tree(c0, b, h, x) || !a0.avoids(x)) by {
            let j = choose|j: int| 0 <= j <= t.len() && self.in_tree(c1, #[trigger] child_at(lm, t, j), hc, x);
        }
        assert forall|k: K| #[trigger] self.kids_lookup(c1, lm, t, hc, k) == self.updated(c0, b, h, key, value, k) by {
            lemma_route_range(s, k);
            lemma_route_insert(s, i, e, k);
            let j = route(s, k);
            let jt = route(t, k);
            lemma_insert_index(s, i, e, lm, lo, hi, jt);
            if j != i {
                assert(k != key);
                assert(self.lookup_at(c1, child_at(lm, s, j), hc, k) == self.lookup_at(c0, child_at(lm, s, j), hc, k));
            } else if k.rank() < sep.rank() {
                assert(self.lookup_at(c1, ci, hc, k) == self.updated(c0, ci, hc, key, value, k));
            } else {
                assert(self.lookup_at(c1, rb, hc, k) == self.updated(c0, ci, hc, key, value, k));
            }
        }
    }

    /// Writes an empty leaf of type `node_type` to `root_block`: the empty
    /// tree that a `BTree` with that root and type then reads.
    pub fn init_empty(ctx: &mut TxContext, root_block: u64, node_type: u32) -> (r: Result<(), FsError>)
        ensures
            r is Ok,
            final(ctx).block(root_block) == empty_leaf_image(node_type),
            forall|x: u64| x != root_block ==> #[trigger] final(ctx).block(x) == old(ctx).block(x),
            forall|t: Self|
                #[trigger] t.tree_type() == node_type && t.root_block == root_block && root_block != 0 ==> {
                    &&& t.inv(*final(ctx))
                    &&& t.height(*final(ctx)) == 0
                    &&& forall|k: K| #[trigger] t.get(*final(ctx), k) is None
                    &&& forall|x: u64| #[trigger] t.contains_block(*final(ctx), x) == (x == root_block)
                },
    {
        let node = BTreeNodeData::new(0, node_type);
        let mut bytes = node.to_bytes();
        let ghost enc = bytes@;
        seal_node(&mut bytes);
        ctx.write_block(root_block, bytes.as_slice());
        proof {
            lemma_caps::<K, V>();
            let c = *ctx;
            assert(enc =~= header_bytes(empty_leaf_header(node_type)) + Seq::new(BTREE_PAYLOAD_SIZE as nat, |i: int| 0u8));
            let hb = c.block(root_block).subrange(0, 64);
            let he = enc.subrange(0, 64);
            assert(hb.subrange(0, 8) =~= he.subrange(0, 8));
            assert(hb.subrange(8, 12) =~= he.subrange(8, 12));
            assert(hb.subrange(12, 14) =~= he.subrange(12, 14));
            assert(hb.subrange(14, 16) =~= he.subrange(14, 16));
            assert(node_header(c.block(root_block)).level == 0);
            assert(node_header(c.block(root_block)).item_count == 0);
            assert(node_header(c.block(root_block)).magic == BTREE_MAGIC);
            assert(node_header(c.block(root_block)).node_type == node_type);
            assert(leaf_items::<K, V>(c.block(root_block)) =~= Seq::<KVPair<K, V>>::empty());
            assert forall|t: Self| #[trigger] t.tree_type() == node_type && t.root_block == root_block && root_block != 0 implies {
                &&& t.inv(c)
                &&& t.height(c) == 0
                &&& forall|k: K| #[trigger] t.get(c, k) is None
                &&& forall|x: u64| #[trigger] t.contains_block(c, x) == (x == root_block)
            } by {
                assert(t.wf_at(c, root_block, 0, None, None));
                t.lemma_height(c, 0);
            }
        }
        Ok(())
    }

    /// The nodes reachable from block `b` through nonzero child pointers
    /// nest at most `h` deep: every node that reads as a valid internal
    /// node of this tree lies above height 0, and so do its children's.
    pub closed spec fn bounded(self, c: TxContext, b: u64, h: nat) -> bool
        decreases h, 0nat,
    {
        let by = c.block(b);
        if !self.readable(by) || node_header(by).level == 0 {
            true
        } else if h == 0 {
            false
        } else {
            self.kids_bounded(c, children::<K>(by), (h - 1) as nat)
        }
    }

    /// Every nonzero block of `xs` is `bounded` at height `h`.
    pub closed spec fn kids_bounded(self, c: TxContext, xs: Seq<u64>, h: nat) -> bool
        decreases h, xs.len() + 1,
    {
        if xs.len() == 0 {
            true
        } else {
            (xs[0] == 0 || self.bounded(c, xs[0], h)) && self.kids_bounded(c, xs.drop_first(), h)
        }
    }

    /// Every node reachable from block `b` (within height `h`) reads as a
    /// valid node of this tree: its magic, node type, checksum and item
    /// count pass the checks of a read.
    pub closed spec fn all_sound(self, c: TxContext, b: u64, h: nat) -> bool
        decreases h, 0nat,
    {
        let by = c.block(b);
        &&& self.readable(by)
        &&& node_header(by).level != 0 ==> h > 0 && self.kids_sound(c, children::<K>(by), (h - 1) as nat)
    }

    /// Every nonzero block of `xs` is `all_sound` at height `h`.
    pub closed spec fn kids_sound(self, c: TxContext, xs: Seq<u64>, h: nat) -> bool
        decreases h, xs.len() + 1,
    {
        if xs.len() == 0 {
            true
        } else {
            (xs[0] == 0 || self.all_sound(c, xs[0], h)) && self.kids_sound(c, xs.drop_first(), h)
        }
    }

    /// The number of nodes reached from block `b` (itself included),
    /// following nonzero child pointers of internal nodes.
    pub closed spec fn reach_count(self, c: TxContext, b: u64, h: nat) -> nat
        decreases h, 0nat,
    {
        let by = c.block(b);
        if node_header(by).level == 0 || h == 0 {
            1
        } else {
            1 + self.kids_count(c, children::<K>(by), (h - 1) as nat)
        }
    }

    /// The nodes reached from the nonzero blocks of `xs`.
    pub closed spec fn kids_count(self, c: TxContext, xs: Seq<u64>, h: nat) -> nat
        decreases h, xs.len() + 1,
    {
        if xs.len() == 0 {
            0
        } else {
            (if xs[0] == 0 {
                0
            } else {
                self.reach_count(c, xs[0], h)
            }) + self.kids_count(c, xs.drop_first(), h)
        }
    }

    /// How deep the nodes reachable from the root nest.
    pub closed spec fn depth(self, c: TxContext) -> nat {
        choose|h: nat| self.bounded(c, self.root_block, h)
    }

    /// Every node reachable from the root reads as a valid node.
    pub closed spec fn reach_sound(self, c: TxContext) -> bool {
        self.all_sound(c, self.root_block, self.depth(c))
    }

    /// The number of nodes reachable from the root.
    pub closed spec fn reach_total(self, c: TxContext) -> nat {
        self.reach_count(c, self.root_block, self.depth(c))
    }

    /// A well-formed subtree nests no deeper than its height, its nodes
    /// read as valid nodes, and they number as many as it holds blocks.
    proof fn lemma_wf_bounded(self, c: TxContext, b: u64, h: nat, lo: Option<int>, hi: Option<int>)
        requires
            self.wf_at(c, b, h, lo, hi),
        ensures
            self.bounded(c, b, h),
            self.all_sound(c, b, h),
        decreases h, 0nat,
    {
        let by = c.block(b);
        if h > 0 {
            let s = inner_items::<K>(by);
            let lm = node_leftmost(by);
            self.lemma_wf_kids(c, lm, s, (h - 1) as nat, lo, hi, 0);
            assert(children::<K>(by).subrange(0, children::<K>(by).len() as int) =~= children::<K>(by));
        }
    }

    /// The children `j..` of a well-formed internal node are bounded and
    /// sound.
    proof fn lemma_wf_kids(self, c: TxContext, lm: u64, s: Seq<KPtrPair<K>>, hc: nat, lo: Option<int>, hi: Option<int>, j: int)
        requires
            0 <= j <= s.len() + 1,
            forall|i: int|
                0 <= i <= s.len() ==> self.wf_at(c, #[trigger] child_at(lm, s, i), hc, lo_at(lo, s, i), hi_at(hi, s, i)),
        ensures
            ({
                let cs = Seq::new((s.len() + 1) as nat, |i: int| child_at(lm, s, i));
                &&& self.kids_bounded(c, cs.subrange(j, cs.len() as int), hc)
                &&& self.kids_sound(c, cs.subrange(j, cs.len() as int), hc)
            }),
        decreases hc, s.len() + 2 - j,
    {
        let cs = Seq::new((s.len() + 1) as nat, |i: int| child_at(lm, s, i));
        let t = cs.subrange(j, cs.len() as int);
        if j <= s.len() {
            assert(t[0] == child_at(lm, s, j));
            self.lemma_wf_bounded(c, child_at(lm, s, j), hc, lo_at(lo, s, j), hi_at(hi, s, j));
            self.lemma_wf_kids(c, lm, s, hc, lo, hi, j + 1);
            assert(t.drop_first() =~= cs.subrange(j + 1, cs.len() as int));
        } else {
            assert(t =~= Seq::<u64>::empty());
        }
    }

    /// A well-formed tree's reachable nodes nest no deeper than its height
    /// and all read as valid nodes.
    pub proof fn lemma_inv_reach(self, c: TxContext)
        requires
            self.inv(c),
        ensures
            exists|h: nat| self.bounded(c, self.root_block, h),
            self.reach_sound(c),
    {
        let h = self.height(c);
        self.lemma_wf_bounded(c, self.root_block, h, None, None);
        let d = self.depth(c);
        assert(self.bounded(c, self.root_block, d));
        self.lemma_sound_any_bound(c, self.root_block, h, d);
    }

    /// Soundness does not depend on which bound it is checked within.
    proof fn lemma_sound_any_bound(self, c: TxContext, b: u64, h1: nat, h2: nat)
        requires
            self.bounded(c, b, h1),
            self.bounded(c, b, h2),
        ensures
            self.all_sound(c, b, h1) == self.all_sound(c, b, h2),
        decreases h1, 0nat,
    {
        let by = c.block(b);
        if self.readable(by) && node_header(by).level != 0 {
            self.lemma_kids_sound_any_bound(c, children::<K>(by), (h1 - 1) as nat, (h2 - 1) as nat);
        }
    }

    proof fn lemma_kids_sound_any_bound(self, c: TxContext, xs: Seq<u64>, h1: nat, h2: nat)
        requires
            self.kids_bounded(c, xs, h1),
            self.kids_bounded(c, xs, h2),
        ensures
            self.kids_sound(c, xs, h1) == self.kids_sound(c, xs, h2),
        decreases h1, xs.len() + 1,
    {
        if xs.len() > 0 {
            if xs[0] != 0 {
                self.lemma_sound_any_bound(c, xs[0], h1, h2);
            }
            self.lemma_kids_sound_any_bound(c, xs.drop_first(), h1, h2);
        }
    }

    /// Counts the nodes reachable from the root, visiting every one of them
    /// and reading each. It succeeds exactly when every reachable node reads
    /// as a valid node of this tree (and the count fits): a node without the
    /// tree's magic and node type, or with too many items, is
    /// `InvalidData`, one whose bytes do not match its checksum is
    /// `NodeChecksumMismatch`.
    pub fn validate(&self, ctx: &TxContext) -> (r: Result<u64, FsError>)
        requires
            exists|h: nat| self.bounded(*ctx, self.root_block, h),
        ensures
            r is Ok <==> self.reach_sound(*ctx) && self.reach_total(*ctx) <= u64::MAX,
            r matches Ok(n) ==> n == self.reach_total(*ctx),
            r matches Err(e) ==> e == FsError::InvalidData || e == FsError::NodeChecksumMismatch,
            !(node_header(ctx.block(self.root_block)).magic == BTREE_MAGIC && node_header(
                ctx.block(self.root_block),
            ).node_type == self.node_type) ==> r == Err::<u64, FsError>(FsError::InvalidData),
            self.root_damaged(*ctx) ==> r == Err::<u64, FsError>(FsError::NodeChecksumMismatch),
    {
        let ghost h = self.depth(*ctx);
        self.validate_node(ctx, self.root_block, Ghost(h))
    }

    /// Adds the node count of the subtree at `x` to `count`.
    fn add_subtree(&self, ctx: &TxContext, count: u64, x: u64, Ghost(h): Ghost<nat>) -> (r: Result<u64, FsError>)
        requires
            self.bounded(*ctx, x, h),
        ensures
            r is Ok <==> self.all_sound(*ctx, x, h) && count + self.reach_count(*ctx, x, h) <= u64::MAX,
            r matches Ok(n) ==> n == count + self.reach_count(*ctx, x, h),
            r matches Err(e) ==> e == FsError::InvalidData || e == FsError::NodeChecksumMismatch,
        decreases h, 2nat,
    {
        match self.validate_node(ctx, x, Ghost(h)) {
            Ok(n) => match count.checked_add(n) {
                Some(v) => Ok(v),
                None => Err(FsError::InvalidData),
            },
            Err(e) => Err(e),
        }
    }

    fn validate_node(&self, ctx: &TxContext, b: u64, Ghost(h): Ghost<nat>) -> (r: Result<u64, FsError>)
        requires
            self.bounded(*ctx, b, h),
        ensures
            r is Ok <==> self.all_sound(*ctx, b, h) && self.reach_count(*ctx, b, h) <= u64::MAX,
            r matches Ok(n) ==> n == self.reach_count(*ctx, b, h),
            r matches Err(e) ==> e == FsError::InvalidData || e == FsError::NodeChecksumMismatch,
            !(node_header(ctx.block(b)).magic == BTREE_MAGIC && node_header(ctx.block(b)).node_type == self.node_type)
                ==> r == Err::<u64, FsError>(FsError::InvalidData),
            node_header(ctx.block(b)).magic == BTREE_MAGIC && node_header(ctx.block(b)).node_type == self.node_type
                && !node_csum_ok(ctx.block(b)) ==> r == Err::<u64, FsError>(FsError::NodeChecksumMismatch),
        decreases h, 0nat,
    {
        let node = match self.read_node(ctx, b) {
            Ok(n) => n,
            Err(e) => {
                return Err(e);
            },
        };
        let ghost c = *ctx;
        let ghost by = c.block(b);
        assert(self.readable(by));
        let mut count: u64 = 1;
        if node.header.level > 0 {
            let ghost hc = (h - 1) as nat;
            let ghost s = node.kps@;
            let ghost cs = children::<K>(by);
            let n = node.kps.len();
            proof {
                lemma_caps::<K, V>();
                assert(cs.subrange(0, cs.len() as int) =~= cs);
            }
            let mut j: usize = 0;
            while j <= n
                invariant
                    c == *ctx,
                    by == c.block(b),
                    node.kps@ == s,
                    n == s.len(),
                    n < 4096,
                    s == inner_items::<K>(by),
                    node.leftmost == node_leftmost(by),
                    cs == children::<K>(by),
                    cs.len() == n + 1,
                    h > 0,
                    hc == h - 1,
                    self.readable(by),
                    node_header(by).level != 0,
                    self.kids_bounded(c, cs.subrange(j as int, cs.len() as int), hc),
                    j <= n + 1,
                    self.kids_sound(c, cs, hc) == self.kids_sound(c, cs.subrange(j as int, cs.len() as int), hc),
                    count + self.kids_count(c, cs.subrange(j as int, cs.len() as int), hc) == 1 + self.kids_count(c, cs, hc),
                decreases n + 1 - j,
            {
                let p = if j == 0 {
                    node.leftmost
                } else {
                    node.kps[j - 1].ptr
                };
                let ghost rest = cs.subrange(j as int, cs.len() as int);
                proof {
                    assert(rest[0] == cs[j as int]);
                    assert(p == cs[j as int]);
                    assert(rest.drop_first() =~= cs.subrange(j + 1, cs.len() as int));
                }
                if p != 0 {
                    count = match self.add_subtree(ctx, count, p, Ghost(hc)) {
                        Ok(v) => v,
                        Err(e) => {
                            return Err(e);
                        },
                    };
                }
                j = j + 1;
            }
            proof {
                assert(cs.subrange(n + 1, cs.len() as int) =~= Seq::<u64>::empty());
            }
        }
        Ok(count)
    }

    /// When the child that covers `key` forgot it and kept its blocks, the
    /// node at `b` did too.
    proof fn lemma_child_removed(self, c0: TxContext, c1: TxContext, b: u64, h: nat, lo: Option<int>, hi: Option<int>, key: K)
        requires
            h > 0,
            self.wf_at(c0, b, h, lo, hi),
            ({
                let s = inner_items::<K>(c0.block(b));
                let ci = child_at(node_leftmost(c0.block(b)), s, route(s, key));
                let li = lo_at(lo, s, route(s, key));
                let hh = hi_at(hi, s, route(s, key));
                let hc = (h - 1) as nat;
                &&& self.wf_at(c1, ci, hc, li, hh)
                &&& forall|x: u64| #[trigger] self.in_tree(c1, ci, hc, x) == self.in_tree(c0, ci, hc, x)
                &&& forall|k: K| #[trigger] self.lookup_at(c1, ci, hc, k) == (if k == key {
                    None
                } else {
                    self.lookup_at(c0, ci, hc, k)
                })
                &&& forall|x: u64| !self.in_tree(c0, ci, hc, x) ==> #[trigger] c1.block(x) == c0.block(x)
            }),
        ensures
            self.wf_at(c1, b, h, lo, hi),
            forall|x: u64| #[trigger] self.in_tree(c1, b, h, x) == self.in_tree(c0, b, h, x),
            forall|k: K| #[trigger] self.lookup_at(c1, b, h, k) == (if k == key {
                None
            } else {
                self.lookup_at(c0, b, h, k)
            }),
            forall|x: u64| !self.in_tree(c0, b, h, x) ==> #[trigger] c1.block(x) == c0.block(x),
    {
        let by = c0.block(b);
        let s = inner_items::<K>(by);
        let lm = node_leftmost(by);
        let hc = (h - 1) as nat;
        let i = route(s, key);
        let ci = child_at(lm, s, i);
        lemma_route_range(s, key);
        assert(c1.block(b) == c0.block(b)) by {
            assert(!self.in_tree(c0, ci, hc, b));
        }
        assert forall|j: int| 0 <= j <= s.len() && j != i implies {
            &&& self.wf_at(c1, #[trigger] child_at(lm, s, j), hc, lo_at(lo, s, j), hi_at(hi, s, j))
            &&& forall|x: u64| self.in_tree(c1, child_at(lm, s, j), hc, x) == self.in_tree(c0, child_at(lm, s, j), hc, x)
            &&& forall|k: K| self.lookup_at(c1, child_at(lm, s, j), hc, k) == self.lookup_at(c0, child_at(lm, s, j), hc, k)
        } by {
            let cj = child_at(lm, s, j);
            assert(self.wf_at(c0, cj, hc, lo_at(lo, s, j), hi_at(hi, s, j)));
            assert forall|x: u64| self.in_tree(c0, cj, hc, x) implies same_node::<K, V>(c0.block(x), c1.block(x)) by {
                if i < j {
                    assert(!(self.in_tree(c0, child_at(lm, s, i), hc, x) && self.in_tree(c0, child_at(lm, s, j), hc, x)));
                } else {
                    assert(!(self.in_tree(c0, child_at(lm, s, j), hc, x) && self.in_tree(c0, child_at(lm, s, i), hc, x)));
                }
            }
            self.lemma_frame(c0, c1, cj, hc, lo_at(lo, s, j), hi_at(hi, s, j));
        }
        assert(self.wf_at(c1, ci, hc, lo_at(lo, s, i), hi_at(hi, s, i)));
        assert forall|j: int| 0 <= j <= s.len() implies !self.in_tree(c1, #[trigger] child_at(lm, s, j), hc, b) by {
            assert(!self.in_tree(c0, child_at(lm, s, j), hc, b));
        }
        assert forall|j1: int, j2: int, x: u64| 0 <= j1 < j2 <= s.len() implies !(self.in_tree(c1, child_at(lm, s, j1), hc, x)
            && self.in_tree(c1, child_at(lm, s, j2), hc, x)) by {
            assert(!(self.in_tree(c0, child_at(lm, s, j1), hc, x) && self.in_tree(c0, child_at(lm, s, j2), hc, x)));
        }
        assert(self.wf_at(c1, b, h, lo, hi));
        assert forall|x: u64| #[trigger] self.in_tree(c1, b, h, x) == self.in_tree(c0, b, h, x) by {
            if x != b {
                if self.in_tree(c1, b, h, x) {
                    let j = choose|j: int| 0 <= j <= s.len() && self.in_tree(c1, #[trigger] child_at(lm, s, j), hc, x);
                    assert(self.in_tree(c0, child_at(lm, s, j), hc, x));
                }
                if self.in_tree(c0, b, h, x) {
                    let j = choose|j: int| 0 <= j <= s.len() && self.in_tree(c0, #[trigger] child_at(lm, s, j), hc, x);
                    assert(self.in_tree(c1, child_at(lm, s, j), hc, x));
                }
            }
        }
        assert forall|k: K| #[trigger] self.lookup_at(c1, b, h, k) == (if k == key {
            None
        } else {
            self.lookup_at(c0, b, h, k)
        }) by {
            lemma_route_range(s, k);
            let j = route(s, k);
            if j != i {
                assert(k != key);
                assert(self.lookup_at(c1, child_at(lm, s, j), hc, k) == self.lookup_at(c0, child_at(lm, s, j), hc, k));
            }
        }
        assert forall|x: u64| !self.in_tree(c0, b, h, x) implies #[trigger] c1.block(x) == c0.block(x) by {
            if self.in_tree(c0, ci, hc, x) {
                self.lemma_in_tree_child(c0, b, h, i, x);
            }
        }
    }

    /// Removes `key` from the subtree at `b`, reporting whether it was there.
    fn remove_rec(
        &self,
        ctx: &mut TxContext,
        b: u64,
        Ghost(h): Ghost<nat>,
        Ghost(lo): Ghost<Option<int>>,
        Ghost(hi): Ghost<Option<int>>,
        key: &K,
        is_root: bool,
    ) -> (r: Result<bool, FsError>)
        requires
            self.wf_at(*old(ctx), b, h, lo, hi),
        ensures
            r == Ok::<bool, FsError>(self.lookup_at(*old(ctx), b, h, *key) is Some),
            self.wf_at(*final(ctx), b, h, lo, hi),
            forall|x: u64| #[trigger] self.in_tree(*final(ctx), b, h, x) == self.in_tree(*old(ctx), b, h, x),
            forall|k: K| #[trigger] self.lookup_at(*final(ctx), b, h, k) == (if k == *key {
                None
            } else {
                self.lookup_at(*old(ctx), b, h, k)
            }),
            forall|x: u64| !self.in_tree(*old(ctx), b, h, x) ==> #[trigger] final(ctx).block(x) == old(ctx).block(x),
        decreases h,
    {
        proof {
            lemma_caps::<K, V>();
        }
        let ghost c0 = *ctx;
        let mut node = match self.read_node(ctx, b) {
            Ok(n) => n,
            Err(e) => {
                return Err(e);
            },
        };
        if node.header.level == 0 {
            proof {
                lemma_leaf_find(node.kvs@, *key);
            }
            match search_kvs(&node.kvs, key) {
                Ok(idx) => {
                    let ghost before = node.kvs@;
                    proof {
                        lemma_find_remove(before, idx as int);
                        K::lemma_rank_injective(before[idx as int].key, *key);
                    }
                    node.kvs.remove(idx);
                    node.header.item_count = node.header.item_count - 1;
                    proof {
                        assert forall|i: int| 0 <= i < node.kvs@.len() implies in_bounds(lo, hi, #[trigger] node.kvs@[i].key.rank()) by {
                            let oi = if i < idx { i } else { i + 1 };
                            assert(node.kvs@[i] == before[oi]);
                        }
                    }
                    self.write_node(ctx, b, &node);
                    if node.header.item_count < (Self::max_leaf_items() / 2) as u16 && !is_root {
                        let _ = self.merge(ctx, b, &node);
                    }
                    proof {
                        assert(self.wf_at(*ctx, b, 0, lo, hi));
                    }
                    Ok(true)
                },
                Err(_) => Ok(false),
            }
        } else {
            let ghost s = node.kps@;
            let ghost hc = (h - 1) as nat;
            let i = route_index(&node.kps, key);
            let child = if i == 0 {
                node.leftmost
            } else {
                node.kps[i - 1].ptr
            };
            proof {
                lemma_route_range(s, *key);
                assert(child == child_at(node.leftmost, s, i as int));
                assert(self.wf_at(c0, child_at(node.leftmost, s, i as int), hc, lo_at(lo, s, i as int), hi_at(hi, s, i as int)));
            }
            let res = self.remove_rec(ctx, child, Ghost(hc), Ghost(lo_at(lo, s, i as int)), Ghost(hi_at(hi, s, i as int)), key, false);
            proof {
                self.lemma_child_removed(c0, *ctx, b, h, lo, hi, *key);
            }
            res
        }
    }

    /// Rebalancing of an underfull leaf. Underfull leaves are allowed: the
    /// tree stays valid with them, so nothing is moved.
    fn merge(&self, ctx: &mut TxContext, b: u64, node: &Node<K, V>) -> (r: Result<(), FsError>)
        ensures
            r is Ok,
            *final(ctx) == *old(ctx),
    {
        Ok(())
    }

    /// Removes `key`, reporting whether the tree held it.
    pub fn remove(&mut self, ctx: &mut TxContext, key: &K) -> (r: Result<bool, FsError>)
        requires
            old(self).inv(*old(ctx)),
        ensures
            *final(self) == *old(self),
            r == Ok::<bool, FsError>(old(self).get(*old(ctx), *key) is Some),
            final(self).inv(*final(ctx)),
            forall|k: K| #[trigger] final(self).get(*final(ctx), k) == (if k == *key {
                None
            } else {
                old(self).get(*old(ctx), k)
            }),
            forall|x: u64| #[trigger] final(self).contains_block(*final(ctx), x) == old(self).contains_block(*old(ctx), x),
            forall|x: u64| !old(self).contains_block(*old(ctx), x) ==> #[trigger] final(ctx).block(x) == old(ctx).block(x),
    {
        let ghost c0 = *ctx;
        let ghost h = self.height(c0);
        let r = self.remove_rec(ctx, self.root_block, Ghost(h), Ghost(None), Ghost(None), key, true);
        proof {
            self.lemma_height(*ctx, h);
        }
        r
    }

    /// Stores `key -> value`. Full nodes split on the way back up, and when
    /// the root splits a new root is allocated above the two halves.
    pub fn insert<A: BlockAllocator>(&mut self, ctx: &mut TxContext, key: K, value: V, alloc: &mut A) -> (r: Result<(), FsError>)
        requires
            old(self).inv(*old(ctx)),
            old(self).guarded_by(*old(ctx), *old(alloc)),
        ensures
            final(self).tree_type() == old(self).tree_type(),
            final(self).root_block == old(self).root_block || !old(alloc).avoids(final(self).root_block),
            forall|x: u64| old(alloc).avoids(x) ==> #[trigger] final(alloc).avoids(x),
            forall|x: u64| !old(self).contains_block(*old(ctx), x) && old(alloc).avoids(x) ==> #[trigger] final(ctx).block(x)
                == old(ctx).block(x),
            old(alloc).can_supply(old(self).height(*old(ctx)) + 2) ==> r is Ok,
            old(self).fits(*old(ctx), key) ==> r is Ok,
            r matches Err(e) ==> old(alloc).refuses_with(e),
            !old(self).fits(*old(ctx), key) && !old(alloc).can_supply(1) ==> r is Err,
            !old(alloc).can_supply(1) && r is Err ==> *final(ctx) == *old(ctx) && *final(self) == *old(self),
            r is Ok ==> {
                &&& Self::holds_insert(*old(self), *old(ctx), *final(self), *final(ctx), key, value)
                &&& final(self).guarded_by(*final(ctx), *final(alloc))
                &&& forall|x: u64| #[trigger] final(self).contains_block(*final(ctx), x) ==> final(alloc).avoids(x) && (
                    old(self).contains_block(*old(ctx), x) || !old(alloc).avoids(x))
            },
    {
        proof {
            lemma_caps::<K, V>();
        }
        let ghost c0 = *ctx;
        let ghost a0 = *alloc;
        let ghost h = self.height(c0);
        let ghost t0 = *self;
        let old_root = self.root_block;
        proof {
            assert forall|x: u64| self.in_tree(c0, old_root, h, x) implies a0.avoids(x) by {
                assert(self.contains_block(c0, x));
            }
        }
        let res = self.insert_rec(ctx, old_root, Ghost(h), Ghost(None), Ghost(None), key, value, alloc);
        let ghost c1 = *ctx;
        let ghost a1 = *alloc;
        match res {
            Err(e) => {
                proof {
                    if a0.can_supply(h + 2) {
                        a0.lemma_supply_mono(h + 1);
                    }
                }
                Err(e)
            },
            Ok(None) => {
                proof {
                    self.lemma_height(c1, h);
                    assert forall|k: K| #[trigger] self.get(c1, k) == (if k == key { Some(value) } else { t0.get(c0, k) }) by {
                        assert(self.lookup_at(c1, old_root, h, k) == self.updated(c0, old_root, h, key, value, k));
                    }
                }
                Ok(())
            },
            Ok(Some((sep, rb))) => {
                let new_root = match alloc.allocate_block() {
                    Ok(x) => x,
                    Err(e) => {
                        proof {
                            if a0.can_supply(h + 2) {
                                assert(a0.can_supply(1 + h + 1));
                            }
                        }
                        return Err(e);
                    },
                };
                let ghost a2 = *alloc;
                let mut kps: Vec<KPtrPair<K>> = Vec::new();
                kps.push(KPtrPair { key: sep, ptr: rb });
                let root = Node {
                    header: BTreeNodeHeader {
                        magic: BTREE_MAGIC,
                        node_type: self.node_type,
                        level: 1,
                        item_count: 1,
                        checksum: 0,
                        padding_align: 0,
                        generation: 0,
                        parent_block: 0,
                        next_leaf: 0,
                        prev_leaf: 0,
                    },
                    leftmost: old_root,
                    kvs: Vec::new(),
                    kps,
                };
                let ghost t = root.kps@;
                proof {
                    let sp = Some(sep.rank());
                    assert(child_at(old_root, t, 0) == old_root);
                    assert(child_at(old_root, t, 1) == rb);
                    assert(hi_at(None, t, 0) == sp);
                    assert(lo_at(None, t, 1) == sp);
                    assert forall|j: int| 0 <= j <= t.len() implies self.wf_at(c1, #[trigger] child_at(old_root, t, j), h, lo_at(None, t, j), hi_at(None, t, j)) by {
                        if j == 0 {
                        } else {
                            assert(j == 1);
                        }
                    }
                    assert forall|j1: int, j2: int, x: u64| 0 <= j1 < j2 <= t.len() implies !(self.in_tree(c1, child_at(old_root, t, j1), h, x)
                        && self.in_tree(c1, child_at(old_root, t, j2), h, x)) by {
                        assert(j1 == 0 && j2 == 1);
                        assert(!(self.in_tree(c1, old_root, h, x) && self.in_tree(c1, rb, h, x)));
                    }
                    assert(self.kids_ok(c1, old_root, t, h, None, None));
                    assert forall|x: u64| #[trigger] self.kids_contain(c1, old_root, t, h, x) implies a1.avoids(x) && (
                        self.in_tree(c0, old_root, h, x) || !a0.avoids(x)) by {
                        let j = choose|j: int| 0 <= j <= t.len() && self.in_tree(c1, #[trigger] child_at(old_root, t, j), h, x);
                        if j == 0 {
                        } else {
                            assert(j == 1);
                        }
                    }
                    assert(!self.kids_contain(c1, old_root, t, h, new_root));
                }
                self.write_node(ctx, new_root, &root);
                let ghost c2 = *ctx;
                match self.reparent_children(ctx, old_root, &root.kps, new_root, Ghost(c1), Ghost(h), Ghost(None), Ghost(None)) {
                    Ok(()) => {},
                    Err(e) => {
                        return Err(e);
                    },
                }
                self.root_block = new_root;
                proof {
                    let c3 = *ctx;
                    t0.lemma_retarget(*self, c3, new_root, h + 1);
                    assert forall|x: u64| #[trigger] t0.kids_contain(c1, old_root, t, h, x) implies same_node::<K, V>(c1.block(x), c3.block(x)) by {
                        assert(c2.block(x) == c1.block(x));
                        assert(same_node::<K, V>(c2.block(x), c3.block(x)));
                    }
                    assert(c3.block(new_root) == c2.block(new_root));
                    t0.lemma_node_over_kids(c1, c3, new_root, h + 1, old_root, t, None, None);
                    self.lemma_height(c3, h + 1);
                    assert forall|k: K| #[trigger] self.get(c3, k) == (if k == key { Some(value) } else { t0.get(c0, k) }) by {
                        assert(t0.lookup_at(c3, new_root, h + 1, k) == t0.kids_lookup(c1, old_root, t, h, k));
                        if k.rank() < sep.rank() {
                            assert(route(t, k) == 0);
                            assert(t0.lookup_at(c1, old_root, h, k) == t0.updated(c0, old_root, h, key, value, k));
                        } else {
                            assert(route(t.subrange(1, 1), k) == 0);
                            assert(route(t, k) == 1);
                            assert(t0.lookup_at(c1, rb, h, k) == t0.updated(c0, old_root, h, key, value, k));
                        }
                    }
                    assert forall|x: u64| #[trigger] self.contains_block(c3, x) implies a2.avoids(x) && (
                        t0.contains_block(c0, x) || !a0.avoids(x)) by {
                        assert(t0.in_tree(c3, new_root, h + 1, x));
                        if x != new_root {
                            assert(t0.kids_contain(c1, old_root, t, h, x));
                        }
                    }
                    assert forall|x: u64| !t0.contains_block(c0, x) && a0.avoids(x) implies #[trigger] c3.block(x) == c0.block(x) by {
                        assert(a1.avoids(x));
                        if t0.kids_contain(c1, old_root, t, h, x) {
                        }
                    }
                }
                Ok(())
            },
        }
    }

    /// Inserts `key -> value` into the subtree at `b`. A node that is full
    /// splits; the separator and block of its new right half are handed back
    /// for the parent to record.
    #[verifier::spinoff_prover]
    #[verifier::rlimit(40)]
    fn insert_rec<A: BlockAllocator>(
        &self,
        ctx: &mut TxContext,
        b: u64,
        Ghost(h): Ghost<nat>,
        Ghost(lo): Ghost<Option<int>>,
        Ghost(hi): Ghost<Option<int>>,
        key: K,
        value: V,
        alloc: &mut A,
    ) -> (r: Result<Option<(K, u64)>, FsError>)
        requires
            self.wf_at(*old(ctx), b, h, lo, hi),
            in_bounds(lo, hi, key.rank()),
            forall|x: u64| self.in_tree(*old(ctx), b, h, x) ==> old(alloc).avoids(x),
            old(alloc).avoids(0),
        ensures
            self.insert_post(*old(ctx), *final(ctx), *old(alloc), *final(alloc), b, h, lo, hi, key, value, r),
            self.fits_at(*old(ctx), b, h, key) ==> r matches Ok(None),
            r matches Err(e) ==> old(alloc).refuses_with(e),
            forall|e: FsError| #[trigger] final(alloc).refuses_with(e) == old(alloc).refuses_with(e),
            !self.fits_at(*old(ctx), b, h, key) && !old(alloc).can_supply(1) ==> r is Err,
        decreases h,
    {
        proof {
            lemma_caps::<K, V>();
        }
        let ghost c0 = *ctx;
        let ghost a0 = *alloc;
        let mut node = match self.read_node(ctx, b) {
            Ok(n) => n,
            Err(e) => {
                return Err(e);
            },
        };
        if node.header.level == 0 {
            proof {
                assert(self.in_tree(c0, b, h, b));
            }
            return self.insert_leaf(ctx, b, node, Ghost(lo), Ghost(hi), key, value, alloc);
        }
        let ghost s = node.kps@;
        let ghost hc = (h - 1) as nat;
        let i = route_index(&node.kps, &key);
        let child = if i == 0 {
            node.leftmost
        } else {
            node.kps[i - 1].ptr
        };
        proof {
            lemma_route_range(s, key);
            assert(child == child_at(node.leftmost, s, i as int));
            assert(self.wf_at(c0, child_at(node.leftmost, s, i as int), hc, lo_at(lo, s, i as int), hi_at(hi, s, i as int)));
            assert forall|x: u64| self.in_tree(c0, child, hc, x) implies a0.avoids(x) by {
                self.lemma_in_tree_child(c0, b, h, i as int, x);
            }
        }
        let res = self.insert_rec(ctx, child, Ghost(hc), Ghost(lo_at(lo, s, i as int)), Ghost(hi_at(hi, s, i as int)), key, value, alloc);
        let ghost c1 = *ctx;
        let ghost a1 = *alloc;
        proof {
            self.lemma_child_frame(c0, c1, a0, a1, b, h, lo, hi, key, value, res);
        }
        match res {
            Err(e) => {
                proof {
                    assert forall|n: nat| a0.can_supply(n + h + 1) implies #[trigger] a1.can_supply(n) by {
                        assert(a1.can_supply(n + 1));
                        a1.lemma_supply_mono(n);
                    }
                    if a0.can_supply(h + 1) {
                        a0.lemma_supply_mono(h);
                    }
                }
                Err(e)
            },
            Ok(None) => {
                proof {
                    self.lemma_child_updated(c0, c1, a0, a1, b, h, lo, hi, key, value);
                }
                Ok(None)
            },
            Ok(Some((sep, rb))) => {
                proof {
                    self.lemma_child_split(c0, c1, a0, a1, b, h, lo, hi, key, value, sep, rb);
                }
                let ghost lm = node.leftmost;
                let ghost t = s.insert(i as int, KPtrPair { key: sep, ptr: rb });
                let pos = match search_kps(&node.kps, &sep) {
                    Ok(idx) => idx + 1,
                    Err(idx) => idx,
                };
                proof {
                    assert(pos == i) by {
                        if pos < i {
                            assert(s[pos as int].key.rank() <= s[i - 1].key.rank());
                        }
                        if pos > i {
                            if pos - 1 > i {
                                assert(s[i as int].key.rank() <= s[pos - 2].key.rank());
                            }
                        }
                    }
                }
                let count = node.kps.len();
                node.kps.insert(pos, KPtrPair { key: sep, ptr: rb });
                assert(node.kps@ == t);
                let max = Self::max_internal_items();
                if count >= max - 1 {
                    let rib = match alloc.allocate_block() {
                        Ok(x) => x,
                        Err(e) => {
                            proof {
                                let a2 = *alloc;
                                assert forall|n: nat| a0.can_supply(n + h + 1) implies #[trigger] a2.can_supply(n) by {
                                    assert(a1.can_supply(n + 1));
                                }
                            }
                            return Err(e);
                        },
                    };
                    let ghost a2 = *alloc;
                    let total = count + 1;
                    let mid = total / 2;
                    let promote = node.kps[mid].key;
                    let rlm = node.kps[mid].ptr;
                    let right_items = node.kps.split_off(mid + 1);
                    node.kps.truncate(mid);
                    let ghost tl = t.subrange(0, mid as int);
                    let ghost tr = t.subrange(mid + 1, t.len() as int);
                    assert(node.kps@ == tl);
                    assert(right_items@ == tr);
                    let right = Node {
                        header: BTreeNodeHeader {
                            magic: BTREE_MAGIC,
                            node_type: self.node_type,
                            level: node.header.level,
                            item_count: (total - mid - 1) as u16,
                            checksum: 0,
                            padding_align: 0,
                            generation: 0,
                            parent_block: node.header.parent_block,
                            next_leaf: 0,
                            prev_leaf: 0,
                        },
                        leftmost: rlm,
                        kvs: Vec::new(),
                        kps: right_items,
                    };
                    node.header.item_count = mid as u16;
                    proof {
                        self.lemma_kids_split(c1, lm, t, hc, lo, hi, mid as int);
                    }
                    self.write_node(ctx, rib, &right);
                    self.write_node(ctx, b, &node);
                    let ghost c3 = *ctx;
                    proof {
                        assert forall|x: u64| #[trigger] self.kids_contain(c1, rlm, tr, hc, x) implies same_node::<K, V>(c1.block(x), c3.block(x)) by {
                            assert(self.kids_contain(c1, lm, t, hc, x));
                        }
                    }
                    match self.reparent_children(ctx, rlm, &right.kps, rib, Ghost(c1), Ghost(hc), Ghost(Some(promote.rank())), Ghost(hi)) {
                        Ok(()) => {},
                        Err(e) => {
                            return Err(e);
                        },
                    }
                    proof {
                        let c4 = *ctx;
                        let sp = Some(promote.rank());
                        assert(t[0].key.rank() < t[mid as int].key.rank());
                        assert(in_bounds(lo, hi, t[0].key.rank()));
                        assert forall|x: u64| #[trigger] self.kids_contain(c1, lm, tl, hc, x) implies same_node::<K, V>(c1.block(x), c4.block(x)) by {
                            assert(self.kids_contain(c1, lm, t, hc, x));
                            assert(c3.block(x) == c1.block(x));
                            if self.kids_contain(c1, rlm, tr, hc, x) {
                            } else {
                                assert(c4.block(x) == c3.block(x));
                            }
                        }
                        assert forall|x: u64| #[trigger] self.kids_contain(c1, rlm, tr, hc, x) implies same_node::<K, V>(c1.block(x), c4.block(x)) by {
                            assert(self.kids_contain(c1, lm, t, hc, x));
                            assert(c3.block(x) == c1.block(x));
                            assert(same_node::<K, V>(c3.block(x), c4.block(x)));
                        }
                        assert(!self.kids_contain(c1, lm, tl, hc, b));
                        assert(!self.kids_contain(c1, rlm, tr, hc, rib)) by {
                            if self.kids_contain(c1, rlm, tr, hc, rib) {
                                assert(self.kids_contain(c1, lm, t, hc, rib));
                            }
                        }
                        assert(!self.kids_contain(c1, lm, tl, hc, rib)) by {
                            if self.kids_contain(c1, lm, tl, hc, rib) {
                                assert(self.kids_contain(c1, lm, t, hc, rib));
                            }
                        }
                        assert(!self.kids_contain(c1, rlm, tr, hc, b));
                        assert(c4.block(b) == c3.block(b));
                        assert(c4.block(rib) == c3.block(rib));
                        self.lemma_node_over_kids(c1, c4, b, h, lm, tl, lo, sp);
                        self.lemma_node_over_kids(c1, c4, rib, h, rlm, tr, sp, hi);
                        assert(b != rib);
                        assert forall|x: u64| !self.in_tree(c0, b, h, x) && a0.avoids(x) implies #[trigger] c4.block(x) == c0.block(x) by {
                            assert(a1.avoids(x));
                            if self.kids_contain(c1, rlm, tr, hc, x) {
                                assert(self.kids_contain(c1, lm, t, hc, x));
                            }
                        }
                        assert forall|x: u64| a0.avoids(x) implies #[trigger] a2.avoids(x) by {
                            assert(a1.avoids(x));
                        }
                        assert forall|n: nat| a0.can_supply(n + h + 1) implies #[trigger] a2.can_supply(n) by {
                            assert(a1.can_supply(n + 1));
                        }
                        assert forall|x: u64| #[trigger] self.in_tree(c4, b, h, x) implies a2.avoids(x) && (self.in_tree(c0, b, h, x)
                            || !a0.avoids(x)) by {
                            if x != b {
                                assert(self.kids_contain(c1, lm, t, hc, x));
                            }
                        }
                        assert forall|x: u64| #[trigger] self.in_tree(c4, rib, h, x) implies a2.avoids(x) && (self.in_tree(c0, b, h, x)
                            || !a0.avoids(x)) by {
                            if x != rib {
                                assert(self.kids_contain(c1, lm, t, hc, x));
                            }
                        }
                        assert forall|k: K| k.rank() < promote.rank() implies #[trigger] self.lookup_at(c4, b, h, k)
                            == self.updated(c0, b, h, key, value, k) by {
                        }
                        assert forall|k: K| k.rank() >= promote.rank() implies #[trigger] self.lookup_at(c4, rib, h, k)
                            == self.updated(c0, b, h, key, value, k) by {
                        }
                    }
                    Ok(Some((promote, rib)))
                } else {
                    node.header.item_count = node.header.item_count + 1;
                    self.write_node(ctx, b, &node);
                    proof {
                        let c2 = *ctx;
                        self.lemma_node_over_kids(c1, c2, b, h, lm, t, lo, hi);
                        assert forall|x: u64| #[trigger] self.in_tree(c2, b, h, x) implies a1.avoids(x) && (self.in_tree(c0, b, h, x)
                            || !a0.avoids(x)) by {
                            if x != b {
                                assert(self.kids_contain(c1, lm, t, hc, x));
                            }
                        }
                        assert forall|n: nat| a0.can_supply(n + h + 1) implies #[trigger] a1.can_supply(n) by {
                            assert(a1.can_supply(n + 1));
                            a1.lemma_supply_mono(n);
                        }
                    }
                    Ok(None)
                }
            },
        }
    }

    /// Inserts into the leaf at `b`, splitting it first when it is full.
    fn insert_leaf<A: BlockAllocator>(
        &self,
        ctx: &mut TxContext,
        b: u64,
        node: Node<K, V>,
        Ghost(lo): Ghost<Option<int>>,
        Ghost(hi): Ghost<Option<int>>,
        key: K,
        value: V,
        alloc: &mut A,
    ) -> (r: Result<Option<(K, u64)>, FsError>)
        requires
            self.wf_at(*old(ctx), b, 0, lo, hi),
            node.shaped(),
            node.stored_in(old(ctx).block(b)),
            in_bounds(lo, hi, key.rank()),
            old(alloc).avoids(b),
            old(alloc).avoids(0),
        ensures
            self.insert_post(*old(ctx), *final(ctx), *old(alloc), *final(alloc), b, 0, lo, hi, key, value, r),
            self.fits_at(*old(ctx), b, 0, key) ==> r matches Ok(None),
            r matches Err(e) ==> old(alloc).refuses_with(e),
            forall|e: FsError| #[trigger] final(alloc).refuses_with(e) == old(alloc).refuses_with(e),
            !self.fits_at(*old(ctx), b, 0, key) && !old(alloc).can_supply(1) ==> r is Err,
    {
        proof {
            lemma_caps::<K, V>();
        }
        let ghost c0 = *ctx;
        let mut node = node;
        let count = node.kvs.len();
        let max = Self::max_leaf_items();
        if count >= max - 1 {
            let right_block = match alloc.allocate_block() {
                Ok(x) => x,
                Err(e) => {
                    return Err(e);
                },
            };
            let mid = count / 2;
            let ghost all = node.kvs@;
            proof {
                lemma_find_split(all, mid as int);
            }
            let right_items = node.kvs.split_off(mid);
            let promote = right_items[0].key;
            let mut right = Node {
                header: BTreeNodeHeader {
                    magic: BTREE_MAGIC,
                    node_type: self.node_type,
                    level: 0,
                    item_count: (count - mid) as u16,
                    checksum: 0,
                    padding_align: 0,
                    generation: 0,
                    parent_block: node.header.parent_block,
                    next_leaf: node.header.next_leaf,
                    prev_leaf: b,
                },
                leftmost: 0,
                kvs: right_items,
                kps: Vec::new(),
            };
            node.header.next_leaf = right_block;
            node.header.item_count = mid as u16;
            let ghost left0 = node.kvs@;
            let ghost right0 = right.kvs@;
            proof {
                assert(left0 =~= all.subrange(0, mid as int));
                assert(right0 =~= all.subrange(mid as int, count as int));
                assert forall|i: int| 0 <= i < left0.len() implies in_bounds(lo, Some(promote.rank()), #[trigger] left0[i].key.rank()) by {
                    assert(all[i].key.rank() < all[mid as int].key.rank());
                }
                assert forall|i: int| 0 <= i < right0.len() implies in_bounds(Some(promote.rank()), hi, #[trigger] right0[i].key.rank()) by {
                    if i > 0 {
                        assert(all[mid as int].key.rank() < all[mid + i].key.rank());
                    }
                }
                assert(all[0].key.rank() < all[mid as int].key.rank());
            }
            if key.compare_key(&promote) == KeyOrder::Less {
                Self::leaf_put(&mut node, key, value, Ghost(lo), Ghost(Some(promote.rank())));
            } else {
                Self::leaf_put(&mut right, key, value, Ghost(Some(promote.rank())), Ghost(hi));
            }
            self.write_node(ctx, right_block, &right);
            let ghost c1 = *ctx;
            self.write_node(ctx, b, &node);
            proof {
                let c2 = *ctx;
                assert(c2.block(right_block) == c1.block(right_block));
                assert(self.wf_at(c2, b, 0, lo, Some(promote.rank())));
                assert(self.wf_at(c2, right_block, 0, Some(promote.rank()), hi));
                assert forall|k: K| k.rank() < promote.rank() implies #[trigger] self.lookup_at(c2, b, 0, k)
                    == self.updated(c0, b, 0, key, value, k) by {
                    K::lemma_rank_injective(k, key);
                }
                assert forall|k: K| k.rank() >= promote.rank() implies #[trigger] self.lookup_at(c2, right_block, 0, k)
                    == self.updated(c0, b, 0, key, value, k) by {
                    K::lemma_rank_injective(k, key);
                }
                assert forall|n: nat| old(alloc).can_supply(n + 0 + 1) implies #[trigger] alloc.can_supply(n) by {
                }
            }
            Ok(Some((promote, right_block)))
        } else {
            Self::leaf_put(&mut node, key, value, Ghost(lo), Ghost(hi));
            self.write_node(ctx, b, &node);
            proof {
                let c2 = *ctx;
                assert(self.wf_at(c2, b, 0, lo, hi));
                assert forall|n: nat| old(alloc).can_supply(n + 0 + 1) implies #[trigger] alloc.can_supply(n) by {
                    old(alloc).lemma_supply_mono(n);
                }
            }
            Ok(None)
        }
    }

    /// Stores `key -> value` among the items of a leaf that has room for one
    /// more.
    fn leaf_put(node: &mut Node<K, V>, key: K, value: V, Ghost(lo): Ghost<Option<int>>, Ghost(hi): Ghost<Option<int>>)
        requires
            old(node).header.level == 0,
            old(node).shaped(),
            old(node).kvs@.len() + 1 < max_leaf::<K, V>(),
            kv_sorted(old(node).kvs@),
            in_bounds(lo, hi, key.rank()),
            forall|i: int| 0 <= i < old(node).kvs@.len() ==> in_bounds(lo, hi, #[trigger] old(node).kvs@[i].key.rank()),
        ensures
            final(node).shaped(),
            final(node).header == (BTreeNodeHeader { item_count: final(node).header.item_count, ..old(node).header }),
            final(node).kvs@.len() < max_leaf::<K, V>(),
            kv_sorted(final(node).kvs@),
            forall|i: int| 0 <= i < final(node).kvs@.len() ==> in_bounds(lo, hi, #[trigger] final(node).kvs@[i].key.rank()),
            forall|k: K| #[trigger] leaf_find(final(node).kvs@, k) == (if k == key { Some(value) } else { leaf_find(old(node).kvs@, k) }),
    {
        let kv = KVPair { key, value };
        proof {
            lemma_caps::<K, V>();
        }
        match search_kvs(&node.kvs, &key) {
            Ok(idx) => {
                proof {
                    lemma_find_update(node.kvs@, idx as int, kv);
                }
                node.kvs.set(idx, kv);
                proof {
                    assert forall|i: int| 0 <= i < node.kvs@.len() implies in_bounds(lo, hi, #[trigger] node.kvs@[i].key.rank()) by {
                        if i != idx {
                            assert(node.kvs@[i] == old(node).kvs@[i]);
                        }
                    }
                }
            },
            Err(idx) => {
                proof {
                    lemma_find_insert(node.kvs@, idx as int, kv);
                    old(node).kvs@.insert_ensures(idx as int, kv);
                }
                node.kvs.insert(idx, kv);
                node.header.item_count = node.header.item_count + 1;
                proof {
                    assert forall|i: int| 0 <= i < node.kvs@.len() implies in_bounds(lo, hi, #[trigger] node.kvs@[i].key.rank()) by {
                        if i < idx {
                            assert(node.kvs@[i] == old(node).kvs@[i]);
                        } else if i > idx {
                            assert(node.kvs@[i] == old(node).kvs@[i - 1]);
                        }
                    }
                }
            },
        }
    }
}

proof fn lemma_caps<K: BTreeItem, V: BTreeItem>()
    ensures
        3 <= max_leaf::<K, V>() <= 4032,
        7 <= max_inner::<K>() <= 4024,
{
    let s = kv_size::<K, V>();
    let t = kp_size::<K>();
    assert(1 <= K::spec_size() <= 512 && 1 <= V::spec_size() <= 512) by {
        K::lemma_size_bounds();
        V::lemma_size_bounds();
    }
    lemma_fundamental_div_mod(4032, s);
    lemma_fundamental_div_mod(4024, t);
    assert(3 <= 4032int / s <= 4032) by (nonlinear_arith)
        requires
            1 <= s <= 1024,
            4032int == s * (4032int / s) + 4032int % s,
            0 <= 4032int % s < s,
    ;
    assert(7 <= 4024int / t <= 4024) by (nonlinear_arith)
        requires
            9 <= t <= 520,
            4024int == t * (4024int / t) + 4024int % t,
            0 <= 4024int % t < t,
    ;
}

} // verus!
