//! The on-disk layout of a B+tree node.
use crate::codec::{get_u16, get_u32, get_u64, put_u16, put_u32, put_u64, put_zeros, BTreeItem};
use vstd::bytes::*;
use vstd::prelude::*;

verus! {

/// "BTREE100"
pub const BTREE_MAGIC: u64 = 0x4254524545313030;

/// Bytes of a node after its 64-byte header.
pub const BTREE_PAYLOAD_SIZE: usize = 4032;

/// The 64-byte header at the start of every node block.
#[derive(Debug, Clone, Copy, PartialEq, Eq, Structural)]
pub struct BTreeNodeHeader {
    pub magic: u64,
    /// Which tree the node belongs to.
    pub node_type: u32,
    /// 0 for a leaf; any other value for an internal node.
    pub level: u16,
    /// Number of items in the node.
    pub item_count: u16,
    pub checksum: u32,
    pub padding_align: u32,
    pub generation: u64,
    pub parent_block: u64,
    pub next_leaf: u64,
    pub prev_leaf: u64,
}

/// The 64 bytes that encode `h`: its fields in little-endian order, then
/// eight zero bytes.
pub open spec fn header_bytes(h: BTreeNodeHeader) -> Seq<u8> {
    spec_u64_to_le_bytes(h.magic) + spec_u32_to_le_bytes(h.node_type) + spec_u16_to_le_bytes(h.level)
        + spec_u16_to_le_bytes(h.item_count) + spec_u32_to_le_bytes(h.checksum) + spec_u32_to_le_bytes(
        h.padding_align,
    ) + spec_u64_to_le_bytes(h.generation) + spec_u64_to_le_bytes(h.parent_block) + spec_u64_to_le_bytes(
        h.next_leaf,
    ) + spec_u64_to_le_bytes(h.prev_leaf) + Seq::new(8, |i: int| 0u8)
}

impl BTreeItem for BTreeNodeHeader {
    open spec fn spec_size() -> nat {
        64
    }

    open spec fn spec_decode(bytes: Seq<u8>) -> BTreeNodeHeader {
        BTreeNodeHeader {
            magic: spec_u64_from_le_bytes(bytes.subrange(0, 8)),
            node_type: spec_u32_from_le_bytes(bytes.subrange(8, 12)),
            level: spec_u16_from_le_bytes(bytes.subrange(12, 14)),
            item_count: spec_u16_from_le_bytes(bytes.subrange(14, 16)),
            checksum: spec_u32_from_le_bytes(bytes.subrange(16, 20)),
            padding_align: spec_u32_from_le_bytes(bytes.subrange(20, 24)),
            generation: spec_u64_from_le_bytes(bytes.subrange(24, 32)),
            parent_block: spec_u64_from_le_bytes(bytes.subrange(32, 40)),
            next_leaf: spec_u64_from_le_bytes(bytes.subrange(40, 48)),
            prev_leaf: spec_u64_from_le_bytes(bytes.subrange(48, 56)),
        }
    }

    proof fn lemma_size_bounds() {
    }

    fn size() -> (n: usize) {
        64
    }

    fn encode_into(&self, out: &mut Vec<u8>)
        ensures
            final(out)@ == old(out)@ + header_bytes(*self),
    {
        let ghost start = out@;
        let ghost s = start.len() as int;
        put_u64(out, self.magic);
        put_u32(out, self.node_type);
        put_u16(out, self.level);
        put_u16(out, self.item_count);
        put_u32(out, self.checksum);
        put_u32(out, self.padding_align);
        put_u64(out, self.generation);
        put_u64(out, self.parent_block);
        put_u64(out, self.next_leaf);
        put_u64(out, self.prev_leaf);
        put_zeros(out, 8);
        proof {
            lemma_auto_spec_u64_to_from_le_bytes();
            lemma_auto_spec_u32_to_from_le_bytes();
            lemma_auto_spec_u16_to_from_le_bytes();
            let e = out@.subrange(s, out@.len() as int);
            assert(out@.subrange(0, s) =~= start);
            assert(e.subrange(0, 8) =~= spec_u64_to_le_bytes(self.magic));
            assert(e.subrange(8, 12) =~= spec_u32_to_le_bytes(self.node_type));
            assert(e.subrange(12, 14) =~= spec_u16_to_le_bytes(self.level));
            assert(e.subrange(14, 16) =~= spec_u16_to_le_bytes(self.item_count));
            assert(e.subrange(16, 20) =~= spec_u32_to_le_bytes(self.checksum));
            assert(e.subrange(20, 24) =~= spec_u32_to_le_bytes(self.padding_align));
            assert(e.subrange(24, 32) =~= spec_u64_to_le_bytes(self.generation));
            assert(e.subrange(32, 40) =~= spec_u64_to_le_bytes(self.parent_block));
            assert(e.subrange(40, 48) =~= spec_u64_to_le_bytes(self.next_leaf));
            assert(e.subrange(48, 56) =~= spec_u64_to_le_bytes(self.prev_leaf));
            assert(e =~= header_bytes(*self));
        }
    }

    fn decode_from(bytes: &[u8], off: usize) -> (r: BTreeNodeHeader) {
        let _len = bytes.len();
        let ghost e = bytes@.subrange(off as int, off + 64);
        let r = BTreeNodeHeader {
            magic: get_u64(bytes, off),
            node_type: get_u32(bytes, off + 8),
            level: get_u16(bytes, off + 12),
            item_count: get_u16(bytes, off + 14),
            checksum: get_u32(bytes, off + 16),
            padding_align: get_u32(bytes, off + 20),
            generation: get_u64(bytes, off + 24),
            parent_block: get_u64(bytes, off + 32),
            next_leaf: get_u64(bytes, off + 40),
            prev_leaf: get_u64(bytes, off + 48),
        };
        proof {
            assert(e.subrange(0, 8) =~= bytes@.subrange(off as int, off + 8));
            assert(e.subrange(8, 12) =~= bytes@.subrange(off + 8, off + 12));
            assert(e.subrange(12, 14) =~= bytes@.subrange(off + 12, off + 14));
            assert(e.subrange(14, 16) =~= bytes@.subrange(off + 14, off + 16));
            assert(e.subrange(16, 20) =~= bytes@.subrange(off + 16, off + 20));
            assert(e.subrange(20, 24) =~= bytes@.subrange(off + 20, off + 24));
            assert(e.subrange(24, 32) =~= bytes@.subrange(off + 24, off + 32));
            assert(e.subrange(32, 40) =~= bytes@.subrange(off + 32, off + 40));
            assert(e.subrange(40, 48) =~= bytes@.subrange(off + 40, off + 48));
            assert(e.subrange(48, 56) =~= bytes@.subrange(off + 48, off + 56));
        }
        r
    }
}

/// A whole node block: the header and the payload bytes that follow it.
pub struct BTreeNodeData {
    pub header: BTreeNodeHeader,
    pub payload: Vec<u8>,
}

impl BTreeNodeData {
    /// An empty node of the given level and tree type.
    pub fn new(level: u16, node_type: u32) -> (r: Self)
        ensures
            r.header == (BTreeNodeHeader {
                magic: BTREE_MAGIC,
                node_type,
                level,
                item_count: 0,
                checksum: 0,
                padding_align: 0,
                generation: 0,
                parent_block: 0,
                next_leaf: 0,
                prev_leaf: 0,
            }),
            r.payload@ == Seq::new(BTREE_PAYLOAD_SIZE as nat, |i: int| 0u8),
    {
        let payload = vec![0u8; BTREE_PAYLOAD_SIZE];
        assert(payload@ =~= Seq::new(BTREE_PAYLOAD_SIZE as nat, |i: int| 0u8));
        BTreeNodeData {
            header: BTreeNodeHeader {
                magic: BTREE_MAGIC,
                node_type,
                level,
                item_count: 0,
                checksum: 0,
                padding_align: 0,
                generation: 0,
                parent_block: 0,
                next_leaf: 0,
                prev_leaf: 0,
            },
            payload,
        }
    }

    /// The block image of the node: the header, then the payload.
    pub fn to_bytes(&self) -> (out: Vec<u8>)
        requires
            self.payload@.len() == BTREE_PAYLOAD_SIZE,
        ensures
            out@.len() == 64 + BTREE_PAYLOAD_SIZE,
            BTreeNodeHeader::spec_decode(out@.subrange(0, 64)) == self.header,
            out@.subrange(64, out@.len() as int) == self.payload@,
            out@ == header_bytes(self.header) + self.payload@,
    {
        let mut out: Vec<u8> = Vec::new();
        self.header.encode_into(&mut out);
        assert(out@.subrange(0, 64) == out@);
        let ghost hdr = out@;
        let mut i: usize = 0;
        while i < self.payload.len()
            invariant
                self.payload@.len() == BTREE_PAYLOAD_SIZE,
                i <= self.payload@.len(),
                out@ == hdr + self.payload@.subrange(0, i as int),
                hdr.len() == 64,
                BTreeNodeHeader::spec_decode(hdr) == self.header,
            decreases self.payload@.len() - i,
        {
            out.push(self.payload[i]);
            i = i + 1;
            assert(out@ =~= hdr + self.payload@.subrange(0, i as int));
        }
        assert(out@.subrange(0, 64) =~= hdr);
        assert(out@.subrange(64, out@.len() as int) =~= self.payload@);
        assert(out@ =~= header_bytes(self.header) + self.payload@);
        out
    }
}

} // verus!
