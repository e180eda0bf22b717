//! File contents: the blocks of a file reached through the extents of its
//! inode, read and written through a transaction.
use crate::allocator::bitmap::{bitmap_block_of, block_used, fits, Allocator};
use crate::btree::tree::{BTree, FailingAllocator};
use crate::error::FsError;
use crate::integrity::bad_blocks::{bad_entry, BadBlockKey, BadBlockManager, BadBlockValue, BAD_BLOCKS_TREE_NODE_TYPE};
use crate::integrity::checksum_tree::{ChecksumTree, ChecksumTreeKey, ChecksumTreeValue, CHECKSUM_TREE_NODE_TYPE};
use crate::ondisk::records::{BlockGroupDescriptor, Extent, Inode, MAX_INLINE_EXTENTS};
use crate::recovery::{crc32, crc32_of};
use crate::transaction::{TxContext, BLOCK_SIZE};
use std::marker::PhantomData;
use vstd::bytes::*;
use vstd::prelude::*;

verus! {

broadcast use TxContext::lemma_block_len;

/// Extent `e` covers logical block `lb`.
pub open spec fn covers(e: Extent, lb: int) -> bool {
    e.logical_start <= lb < e.logical_start + e.length
}

/// The physical block of logical block `lb` by the first of the extents
/// `i .. n` of `ext` that covers it; 0 where none does.
pub open spec fn phys_from(ext: Seq<Extent>, i: int, n: int, lb: int) -> int
    decreases n - i,
{
    if i >= n {
        0
    } else if covers(ext[i], lb) {
        ext[i].physical_start + (lb - ext[i].logical_start)
    } else {
        phys_from(ext, i + 1, n, lb)
    }
}

/// The physical block that holds logical block `lb` of the file of `inode`;
/// 0 for a hole.
pub open spec fn phys_of(inode: Inode, lb: int) -> int {
    phys_from(inode.extents@, 0, inode.extent_count as int, lb)
}

/// The extent list of `inode` is in range and none of its extents runs past
/// the largest block number.
pub open spec fn extents_ok(inode: Inode) -> bool {
    &&& inode.extent_count <= MAX_INLINE_EXTENTS
    &&& forall|i: int|
        0 <= i < inode.extent_count ==> {
            &&& #[trigger] inode.extents@[i].logical_start + inode.extents@[i].length <= u64::MAX
            &&& inode.extents@[i].physical_start + inode.extents@[i].length <= u64::MAX
        }
}

/// The first of the extents `i .. n` that a run of `len` blocks from logical
/// block `lb`, stored from `pb`, continues: at its end (`true`) or at its
/// start (`false`).
pub open spec fn join_at(ext: Seq<Extent>, i: int, n: int, lb: int, pb: int, len: int) -> Option<(int, bool)>
    decreases n - i,
{
    if i >= n {
        None
    } else if ext[i].logical_start + ext[i].length == lb && ext[i].physical_start + ext[i].length == pb {
        Some((i, true))
    } else if lb + len == ext[i].logical_start && pb + len == ext[i].physical_start {
        Some((i, false))
    } else {
        join_at(ext, i + 1, n, lb, pb, len)
    }
}

/// The extent `e` grown by the run of `len` blocks from `lb`, stored from
/// `pb`, at its end (`at_end`) or at its start.
pub open spec fn joined(e: Extent, lb: u64, pb: u64, len: u64, at_end: bool) -> Extent {
    if at_end {
        Extent { length: (e.length + len) as u64, ..e }
    } else {
        Extent { logical_start: lb, physical_start: pb, length: (e.length + len) as u64 }
    }
}


/// The number of blocks that `size` bytes take.
pub open spec fn blocks_for(size: u64) -> int {
    (size + 4095) / 4096
}

/// The blocks that truncating to `nb` blocks frees of extent `e`, as a first
/// block and a count.
pub open spec fn cut_range(e: Extent, nb: int) -> (int, int) {
    if e.logical_start >= nb {
        (e.physical_start as int, e.length as int)
    } else if e.logical_start + e.length > nb {
        (e.physical_start + (nb - e.logical_start), e.length - (nb - e.logical_start))
    } else {
        (0, 0)
    }
}

/// Extent `e` after truncating the file to `nb` blocks: cleared when it lies
/// wholly beyond, shortened when it runs past.
pub open spec fn cut_extent(e: Extent, nb: int) -> Extent {
    if e.logical_start >= nb {
        Extent { logical_start: 0, physical_start: 0, length: 0 }
    } else if e.logical_start + e.length > nb {
        Extent { length: (nb - e.logical_start) as u64, ..e }
    } else {
        e
    }
}

/// How many of the first `i` extents start below block `nb`.
pub open spec fn kept_count(ext: Seq<Extent>, i: int, nb: int) -> int
    decreases i,
{
    if i <= 0 {
        0
    } else {
        kept_count(ext, i - 1, nb) + if ext[i - 1].logical_start < nb { 1int } else { 0int }
    }
}

/// Block `b` is freed by truncating one of the first `i` extents to `nb`
/// blocks.
pub open spec fn cut_frees(ext: Seq<Extent>, i: int, nb: int, b: int) -> bool {
    exists|j: int| 0 <= j < i && #[trigger] cut_range(ext[j], nb).0 <= b < cut_range(ext[j], nb).0 + cut_range(ext[j], nb).1
}

/// Block `x` is a bitmap block that truncating one of the first `i` extents
/// to `nb` blocks rewrites.
pub open spec fn cut_touches(ext: Seq<Extent>, i: int, nb: int, bitmap_start: u64, x: int) -> bool {
    exists|j: int|
        0 <= j < i && #[trigger] cut_range(ext[j], nb).1 > 0 && bitmap_block_of(bitmap_start, cut_range(ext[j], nb).0) <= x
            <= bitmap_block_of(bitmap_start, cut_range(ext[j], nb).0 + cut_range(ext[j], nb).1 - 1)
}

/// The bits of every block of the extents of `inode` lie in a bitmap block
/// that has a number.
pub open spec fn bitmap_covers(inode: Inode, bitmap_start: u64) -> bool {
    forall|i: int|
        0 <= i < inode.extent_count ==> bitmap_start + (#[trigger] inode.extents@[i].physical_start + inode.extents@[i].length)
            / 32768 <= u64::MAX
}


/// The algorithm id recorded with block checksums: CRC-32.
pub const BLOCK_CHECKSUM_ALGORITHM: u8 = 1;

/// The checksum bytes recorded for a block: its CRC-32, little endian,
/// then zeros.
pub open spec fn block_checksum(b: Seq<u8>) -> Seq<u8> {
    spec_u32_to_le_bytes(crc32_of(b)) + Seq::new(28, |i: int| 0u8)
}

/// The checksum tree rooted at `root`.
pub open spec fn checksum_tree_at(root: u64) -> BTree<ChecksumTreeKey, ChecksumTreeValue> {
    BTree { root_block: root, node_type: CHECKSUM_TREE_NODE_TYPE, _marker: PhantomData }
}

/// The bad-block tree rooted at `root`.
pub open spec fn bad_tree_at(root: u64) -> BTree<BadBlockKey, BadBlockValue> {
    BTree { root_block: root, node_type: BAD_BLOCKS_TREE_NODE_TYPE, _marker: PhantomData }
}

/// Byte `p` of the file of `inode`: 0 in a hole.
pub open spec fn file_byte(c: TxContext, inode: Inode, p: int) -> u8 {
    let ph = phys_of(inode, p / 4096);
    if ph == 0 {
        0
    } else {
        c.block(ph as u64)[p % 4096]
    }
}

/// Logical block `lb` of the file of `inode` passes its check: it is a
/// hole, there is no checksum tree (root 0), the tree holds no record for
/// it, or the recorded checksum is that of the block.
pub open spec fn block_verifies(c: TxContext, csum_root: u64, inode: Inode, lb: int) -> bool {
    let ph = phys_of(inode, lb);
    ph == 0 || csum_root == 0 || match checksum_tree_at(csum_root).get(
        c,
        ChecksumTreeKey { object_id: inode.ino, logical_block: lb as u64 },
    ) {
        Some(v) => v.checksum_bytes@ == block_checksum(c.block(ph as u64)),
        None => true,
    }
}


/// Block `x` is one of the bitmap blocks, from `bs`, for `total` blocks.
pub open spec fn in_bitmap(bs: u64, total: int, x: int) -> bool {
    bs <= x < bs + (total + 32767) / 32768
}

/// Every extent of `inode` that holds blocks stores them from a block other
/// than 0, so that a mapped block is never read as a hole.
pub open spec fn extents_placed(inode: Inode) -> bool {
    forall|i: int| 0 <= i < inode.extent_count ==> #[trigger] inode.extents@[i].length > 0 ==> inode.extents@[i].physical_start > 0
}

/// Block `x` is a node of the checksum tree at `csum_root` (none when 0).
pub open spec fn csum_block(c: TxContext, csum_root: u64, x: u64) -> bool {
    csum_root != 0 && checksum_tree_at(csum_root).contains_block(c, x)
}

/// How a file's blocks, the bitmap from `bs` for `total` blocks and the
/// checksum tree share the volume: block 0 and every bitmap block, tree
/// node and block of the file are marked used and lie below `total`; the
/// file's blocks are neither bitmap blocks nor tree nodes, nor are tree
/// nodes bitmap blocks; no two logical blocks share a physical block.
pub open spec fn write_layout(c: TxContext, bs: u64, total: int, csum_root: u64, inode: Inode) -> bool {
    &&& extents_ok(inode)
    &&& extents_placed(inode)
    &&& 0 < total
    &&& total + 32767 <= u64::MAX
    &&& bs + (total + 32767) / 32768 <= u64::MAX
    &&& block_used(c, bs, 0)
    &&& forall|x: int| 0 <= x < total && #[trigger] in_bitmap(bs, total, x) ==> block_used(c, bs, x)
    &&& forall|lb: int|
        #[trigger] phys_of(inode, lb) != 0 ==> {
            &&& 0 < phys_of(inode, lb) < total
            &&& block_used(c, bs, phys_of(inode, lb))
            &&& !in_bitmap(bs, total, phys_of(inode, lb))
            &&& !csum_block(c, csum_root, phys_of(inode, lb) as u64)
        }
    &&& forall|l1: int, l2: int|
        l1 != l2 && #[trigger] phys_of(inode, l1) != 0 ==> phys_of(inode, l1) != #[trigger] phys_of(inode, l2)
    &&& csum_root != 0 ==> checksum_tree_at(csum_root).inv(c)
    &&& forall|x: u64|
        #[trigger] csum_block(c, csum_root, x) ==> x < total && block_used(c, bs, x as int) && !in_bitmap(bs, total, x as int)
}

/// The checksum record that `write_file` stores for a block at `ph` that
/// holds `content`.
pub open spec fn csum_record(ph: u64, content: Seq<u8>) -> ChecksumTreeValue {
    ChecksumTreeValue {
        physical_block: ph,
        checksum_bytes: crate::codec::array32(block_checksum(content)),
        generation: 1,
        algorithm_id: BLOCK_CHECKSUM_ALGORITHM,
        verification_status: 1,
    }
}

/// The result of `add_extent` for a run of `len` blocks: `i1` is `i0` with
/// the run joined to an extent or appended.
pub open spec fn extent_added(i0: Inode, i1: Inode, lb: u64, pb: u64, len: u64) -> bool {
    &&& i1 == (Inode { extents: i1.extents, extent_count: i1.extent_count, ..i0 })
    &&& match join_at(i0.extents@, 0, i0.extent_count as int, lb as int, pb as int, len as int) {
        Some((i, at_end)) => {
            &&& i1.extent_count == i0.extent_count
            &&& i1.extents@ == i0.extents@.update(i, joined(i0.extents@[i], lb, pb, len, at_end))
        },
        None => {
            &&& i0.extent_count < MAX_INLINE_EXTENTS
            &&& i1.extent_count == i0.extent_count + 1
            &&& i1.extents@ == i0.extents@.update(i0.extent_count as int, Extent { logical_start: lb, physical_start: pb, length: len })
        },
    }
}

/// Where the extents `i .. n` of `ext` and `ext2` (`n2` of them) agree on
/// logical block `x`, so do the physical blocks they give it.
proof fn lemma_phys_from_same(ext: Seq<Extent>, ext2: Seq<Extent>, i: int, n: int, n2: int, x: int)
    requires
        0 <= i,
        n <= n2,
        forall|j: int| i <= j < n ==> (#[trigger] covers(ext2[j], x)) == covers(ext[j], x),
        forall|j: int|
            i <= j < n && #[trigger] covers(ext[j], x) ==> ext2[j].physical_start + (x - ext2[j].logical_start) == ext[j].physical_start + (x
                - ext[j].logical_start),
        forall|j: int| n <= j < n2 && j >= i ==> !#[trigger] covers(ext2[j], x),
    ensures
        phys_from(ext2, i, n2, x) == phys_from(ext, i, n, x),
    decreases n2 - i,
{
    if i < n2 {
        lemma_phys_from_same(ext, ext2, i + 1, n, n2, x);
    }
}

/// The first of the extents `i .. n` to cover `x` is the one at `k`.
proof fn lemma_phys_from_hit(ext: Seq<Extent>, i: int, n: int, k: int, x: int)
    requires
        i <= k < n,
        forall|j: int| i <= j < k ==> !#[trigger] covers(ext[j], x),
        covers(ext[k], x),
    ensures
        phys_from(ext, i, n, x) == ext[k].physical_start + (x - ext[k].logical_start),
    decreases k - i,
{
    if i < k {
        lemma_phys_from_hit(ext, i + 1, n, k, x);
    }
}

/// With placed extents, block `x` reads as a hole only where no extent
/// covers it.
proof fn lemma_hole(ext: Seq<Extent>, i: int, n: int, x: int)
    requires
        0 <= i,
        forall|j: int| i <= j < n ==> #[trigger] ext[j].length > 0 ==> ext[j].physical_start > 0,
        phys_from(ext, i, n, x) == 0,
    ensures
        forall|j: int| i <= j < n ==> !#[trigger] covers(ext[j], x),
    decreases n - i,
{
    if i < n {
        lemma_hole(ext, i + 1, n, x);
    }
}

/// Adding one block `pb` for a logical block `lb` that was a hole maps `lb`
/// to `pb` and keeps every other logical block where it was.
proof fn lemma_extent_added(i0: Inode, i1: Inode, lb: u64, pb: u64)
    requires
        extents_ok(i0),
        extents_placed(i0),
        phys_of(i0, lb as int) == 0,
        pb > 0,
        lb + 1 <= u64::MAX,
        pb + 1 <= u64::MAX,
        extent_added(i0, i1, lb, pb, 1),
    ensures
        extents_ok(i1),
        extents_placed(i1),
        phys_of(i1, lb as int) == pb,
        forall|x: int| x != lb ==> #[trigger] phys_of(i1, x) == phys_of(i0, x),
{
    let ext = i0.extents@;
    let ext2 = i1.extents@;
    let n = i0.extent_count as int;
    let n2 = i1.extent_count as int;
    lemma_hole(ext, 0, n, lb as int);
    let (k, e) = match join_at(ext, 0, n, lb as int, pb as int, 1) {
        Some((i, at_end)) => {
            lemma_join_at_range(ext, 0, n, lb as int, pb as int, 1);
            (i, joined(ext[i], lb, pb, 1, at_end))
        },
        None => (n, Extent { logical_start: lb, physical_start: pb, length: 1 }),
    };
    assert(0 <= k < n2);
    assert(ext2[k] == e);
    assert forall|j: int| 0 <= j < n2 && j != k implies #[trigger] ext2[j] == ext[j] by {}
    assert(covers(e, lb as int));
    assert(e.physical_start + (lb - e.logical_start) == pb);
    lemma_phys_from_hit(ext2, 0, n2, k, lb as int);
    assert forall|x: int| x != lb implies #[trigger] phys_of(i1, x) == phys_of(i0, x) by {
        lemma_phys_from_same(ext, ext2, 0, n, n2, x);
    }
}

/// `join_at` picks one of the extents it looks at.
proof fn lemma_join_at_range(ext: Seq<Extent>, i: int, n: int, lb: int, pb: int, len: int)
    requires
        join_at(ext, i, n, lb, pb, len) is Some,
    ensures
        join_at(ext, i, n, lb, pb, len) matches Some((k, at_end)) && i <= k < n && (at_end ==> ext[k].logical_start + ext[k].length == lb
            && ext[k].physical_start + ext[k].length == pb) && (!at_end ==> lb + len == ext[k].logical_start && pb + len
            == ext[k].physical_start),
    decreases n - i,
{
    if i < n && !(ext[i].logical_start + ext[i].length == lb && ext[i].physical_start + ext[i].length == pb) && !(lb + len
        == ext[i].logical_start && pb + len == ext[i].physical_start) {
        lemma_join_at_range(ext, i + 1, n, lb, pb, len);
    }
}

/// The layout holds on where no block became free, the checksum tree is
/// well formed, and no block became a node of it.
proof fn lemma_layout_keep(c0: TxContext, c1: TxContext, bs: u64, total: int, csum_root: u64, inode: Inode)
    requires
        write_layout(c0, bs, total, csum_root, inode),
        forall|b: int| 0 <= b < total && #[trigger] block_used(c0, bs, b) ==> block_used(c1, bs, b),
        csum_root != 0 ==> checksum_tree_at(csum_root).inv(c1),
        forall|x: u64| #[trigger] csum_block(c1, csum_root, x) ==> csum_block(c0, csum_root, x),
    ensures
        write_layout(c1, bs, total, csum_root, inode),
{
    assert(block_used(c1, bs, 0));
    assert forall|x: int| 0 <= x < total && #[trigger] in_bitmap(bs, total, x) implies block_used(c1, bs, x) by {
        assert(block_used(c0, bs, x));
    }
    assert forall|lb: int| #[trigger] phys_of(inode, lb) != 0 implies {
        &&& 0 < phys_of(inode, lb) < total
        &&& block_used(c1, bs, phys_of(inode, lb))
        &&& !in_bitmap(bs, total, phys_of(inode, lb))
        &&& !csum_block(c1, csum_root, phys_of(inode, lb) as u64)
    } by {
        assert(block_used(c0, bs, phys_of(inode, lb)));
        assert(!csum_block(c0, csum_root, phys_of(inode, lb) as u64));
    }
    assert forall|x: u64| #[trigger] csum_block(c1, csum_root, x) implies x < total && block_used(c1, bs, x as int) && !in_bitmap(
        bs,
        total,
        x as int,
    ) by {
        assert(csum_block(c0, csum_root, x));
        assert(block_used(c0, bs, x as int));
    }
}

/// Changing only blocks outside the checksum tree keeps the tree as it was.
proof fn lemma_tree_kept(c0: TxContext, c1: TxContext, csum_root: u64)
    requires
        csum_root != 0 ==> checksum_tree_at(csum_root).inv(c0),
        forall|x: u64| #[trigger] csum_block(c0, csum_root, x) ==> c1.block(x) == c0.block(x),
    ensures
        csum_root != 0 ==> checksum_tree_at(csum_root).inv(c1),
        forall|x: u64| #[trigger] csum_block(c1, csum_root, x) == csum_block(c0, csum_root, x),
        forall|k: ChecksumTreeKey| #[trigger] checksum_tree_at(csum_root).get(c1, k) == checksum_tree_at(csum_root).get(c0, k)
            || csum_root == 0,
{
    if csum_root != 0 {
        let tr = checksum_tree_at(csum_root);
        assert forall|x: u64| #[trigger] tr.contains_block(c0, x) implies c1.block(x) == c0.block(x) by {
            assert(csum_block(c0, csum_root, x));
        }
        tr.lemma_unchanged(c0, c1);
    }
}

/// Logical block `l` holds some of the `len` bytes written at `offset`.
pub open spec fn in_write(offset: u64, len: int, l: int) -> bool {
    len > 0 && offset / 4096 <= l && l * 4096 < offset + len
}

/// What writing `chunk` at byte `bo` of logical block `lb` did, from `c0`
/// and `i0` to `c1` and `i1`: `lb` is mapped, to a block that was free if it
/// was a hole, and that block alone got marked used; the block holds
/// `chunk` from `bo` and what it held elsewhere; no other block but bitmap
/// blocks and tree nodes changed; the checksum tree holds, if anything new,
/// the record of the block.
pub open spec fn chunk_written(
    c0: TxContext,
    i0: Inode,
    c1: TxContext,
    i1: Inode,
    bs: u64,
    total: int,
    csum_root: u64,
    lb: int,
    bo: int,
    chunk: Seq<u8>,
) -> bool {
    let ph = phys_of(i1, lb);
    &&& ph != 0
    &&& phys_of(i0, lb) == 0 ==> !block_used(c0, bs, ph)
    &&& forall|b: int| 0 <= b < total ==> #[trigger] block_used(c1, bs, b) == (block_used(c0, bs, b) || (phys_of(i0, lb) == 0 && b == ph))
    &&& forall|i: int|
        0 <= i < BLOCK_SIZE ==> #[trigger] c1.block(ph as u64)[i] == if bo <= i < bo + chunk.len() {
            chunk[i - bo]
        } else {
            c0.block(ph as u64)[i]
        }
    &&& forall|x: u64|
        x != ph && !in_bitmap(bs, total, x as int) && !csum_block(c0, csum_root, x) ==> #[trigger] c1.block(x) == c0.block(x)
    &&& csum_root != 0 ==> forall|k: ChecksumTreeKey|
        #[trigger] checksum_tree_at(csum_root).get(c1, k) == checksum_tree_at(csum_root).get(c0, k) || (k == ChecksumTreeKey {
            object_id: i0.ino,
            logical_block: lb as u64,
        } && checksum_tree_at(csum_root).get(c1, k) == Some(csum_record(ph as u64, c1.block(ph as u64))))
}

/// The first `pos` bytes of `data`, written at `offset` into the file of
/// `i0` in `c0`, stand in `c` with `i`: every logical block they touch is
/// mapped, to a block that was free where it was a hole, and no other
/// mapping changed; the file reads `data` there and what `c0` held in its
/// blocks elsewhere; the bitmap gained exactly the new blocks; no other
/// block but bitmap blocks and tree nodes changed; the checksum tree holds,
/// where it changed, the records of the blocks written.
pub open spec fn write_progress(
    c0: TxContext,
    i0: Inode,
    c: TxContext,
    i: Inode,
    bs: u64,
    total: int,
    csum_root: u64,
    offset: u64,
    data: Seq<u8>,
    pos: int,
) -> bool {
    &&& write_layout(c, bs, total, csum_root, i)
    &&& forall|l: int| #[trigger] phys_of(i0, l) != 0 ==> phys_of(i, l) == phys_of(i0, l)
    &&& forall|l: int| !in_write(offset, pos, l) ==> #[trigger] phys_of(i, l) == phys_of(i0, l)
    &&& forall|l: int| in_write(offset, pos, l) ==> #[trigger] phys_of(i, l) != 0
    &&& forall|l: int| in_write(offset, pos, l) && phys_of(i0, l) == 0 ==> !block_used(c0, bs, #[trigger] phys_of(i, l))
    &&& forall|p: int| #[trigger] file_byte(c, i, p) == if offset <= p < offset + pos {
        data[p - offset]
    } else {
        file_byte(c0, i, p)
    }
    &&& forall|b: int|
        0 <= b < total ==> #[trigger] block_used(c, bs, b) == (block_used(c0, bs, b) || exists|l: int|
            in_write(offset, pos, l) && phys_of(i0, l) == 0 && #[trigger] phys_of(i, l) == b)
    &&& forall|x: u64|
        !in_bitmap(bs, total, x as int) && !csum_block(c0, csum_root, x) && !(exists|l: int|
            in_write(offset, pos, l) && #[trigger] phys_of(i, l) == x) ==> #[trigger] c.block(x) == c0.block(x)
    &&& forall|x: u64| #[trigger] csum_block(c, csum_root, x) ==> csum_block(c0, csum_root, x)
    &&& csum_root != 0 ==> forall|k: ChecksumTreeKey|
        #[trigger] checksum_tree_at(csum_root).get(c, k) == checksum_tree_at(csum_root).get(c0, k) || (k.object_id == i0.ino
            && in_write(offset, pos, k.logical_block as int) && checksum_tree_at(csum_root).get(c, k) == Some(
            csum_record(phys_of(i, k.logical_block as int) as u64, c.block(phys_of(i, k.logical_block as int) as u64)),
        ))
}

/// The bytes `pos .. pos + n` of `data`.
fn slice_of(data: &[u8], pos: usize, n: usize) -> (r: Vec<u8>)
    requires
        pos + n <= data@.len(),
    ensures
        r@ == data@.subrange(pos as int, pos + n),
{
    let mut out: Vec<u8> = Vec::new();
    let total = data.len();
    let mut k: usize = 0;
    while k < n
        invariant
            total == data@.len(),
            pos + n <= total,
            k <= n,
            out@ == data@.subrange(pos as int, pos + k),
        decreases n - k,
    {
        out.push(data[pos + k]);
        k = k + 1;
        assert(out@ =~= data@.subrange(pos as int, pos + k));
    }
    out
}

/// The logical blocks that the first `pos + n` bytes written at `offset`
/// touch are those that the first `pos` touch and the block of byte
/// `offset + pos`, where the `n` bytes from there stay in that block and a
/// write past the first block goes on from a block boundary.
proof fn lemma_in_write_step(offset: u64, pos: int, n: int, l: int)
    requires
        0 <= pos,
        0 < n,
        (offset + pos) % 4096 + n <= 4096,
        pos > 0 ==> (offset + pos) % 4096 == 0,
    ensures
        in_write(offset, pos + n, l) == (in_write(offset, pos, l) || l == (offset + pos) / 4096),
        !in_write(offset, pos, (offset + pos) / 4096),
{
    let cur = offset + pos;
    let lb = cur / 4096;
    assert(lb * 4096 + cur % 4096 == cur);
    assert(offset / 4096 * 4096 + offset % 4096 == offset);
    if pos == 0 {
        assert(lb == offset / 4096);
    } else {
        assert(lb * 4096 == cur);
        vstd::arithmetic::div_mod::lemma_div_is_ordered(offset as int, cur, 4096);
    }
}

/// A write that stopped at the block of byte `offset + pos`, a hole, left
/// the mapping as the written blocks before it had made it.
proof fn lemma_write_stopped(i0: Inode, ip: Inode, offset: u64, len: int, pos: int)
    requires
        0 <= pos < len,
        offset + len <= u64::MAX,
        pos > 0 ==> (offset + pos) % 4096 == 0,
        forall|l: int| !in_write(offset, pos, l) ==> #[trigger] phys_of(ip, l) == phys_of(i0, l),
        phys_of(ip, (offset + pos) / 4096) == 0,
    ensures
        forall|l: int| !in_write(offset, len, l) ==> #[trigger] phys_of(ip, l) == phys_of(i0, l),
        !(forall|l: int| in_write(offset, len, l) ==> #[trigger] phys_of(i0, l) != 0),
{
    let cur = offset + pos;
    let lb = cur / 4096;
    assert(lb * 4096 + cur % 4096 == cur);
    assert forall|l: int| !in_write(offset, len, l) implies #[trigger] phys_of(ip, l) == phys_of(i0, l) by {
        if in_write(offset, pos, l) {
            assert(l * 4096 < offset + pos);
        }
    }
    lemma_in_write_step(offset, pos, 1, lb);
    assert(in_write(offset, len, lb)) by {
        if pos > 0 {
            vstd::arithmetic::div_mod::lemma_div_is_ordered(offset as int, cur, 4096);
        }
    }
    assert(phys_of(i0, lb) == 0);
}

/// What holds when the chunk of `data` from `pos` has just been written,
/// from `cp` and `ip` to `c` and `i`, after the first `pos` bytes.
pub open spec fn step_facts(
    c0: TxContext,
    i0: Inode,
    cp: TxContext,
    ip: Inode,
    c: TxContext,
    i: Inode,
    bs: u64,
    total: int,
    csum_root: u64,
    offset: u64,
    data: Seq<u8>,
    pos: int,
    chunk: Seq<u8>,
) -> bool {
    &&& write_layout(c0, bs, total, csum_root, i0)
    &&& write_progress(c0, i0, cp, ip, bs, total, csum_root, offset, data, pos)
    &&& ip.ino == i0.ino
    &&& 0 <= pos < data.len()
    &&& offset + data.len() <= u64::MAX
    &&& pos > 0 ==> (offset + pos) % 4096 == 0
    &&& chunk == data.subrange(pos, pos + chunk.len())
    &&& chunk.len() == if 4096 - (offset + pos) % 4096 < data.len() - pos {
        4096 - (offset + pos) % 4096
    } else {
        data.len() - pos
    }
    &&& write_layout(c, bs, total, csum_root, i)
    &&& forall|x: int| x != (offset + pos) / 4096 ==> #[trigger] phys_of(i, x) == phys_of(ip, x)
    &&& phys_of(ip, (offset + pos) / 4096) != 0 ==> phys_of(i, (offset + pos) / 4096) == phys_of(ip, (offset + pos) / 4096)
    &&& forall|x: u64| #[trigger] csum_block(c, csum_root, x) ==> csum_block(cp, csum_root, x)
    &&& chunk_written(cp, ip, c, i, bs, total, csum_root, (offset + pos) / 4096, (offset + pos) % 4096, chunk)
}

/// The logical blocks touched after the step are those touched before and
/// the block written, which was not touched before; it held no block of the
/// earlier ones, nor a tree node, and had kept what `c0` held.
proof fn lemma_step_base(
    c0: TxContext,
    i0: Inode,
    cp: TxContext,
    ip: Inode,
    c: TxContext,
    i: Inode,
    bs: u64,
    total: int,
    csum_root: u64,
    offset: u64,
    data: Seq<u8>,
    pos: int,
    chunk: Seq<u8>,
)
    requires
        step_facts(c0, i0, cp, ip, c, i, bs, total, csum_root, offset, data, pos, chunk),
    ensures
        forall|l: int| #[trigger] in_write(offset, pos + chunk.len(), l) == (in_write(offset, pos, l) || l == (offset + pos) / 4096),
        !in_write(offset, pos, (offset + pos) / 4096),
        phys_of(ip, (offset + pos) / 4096) == phys_of(i0, (offset + pos) / 4096),
        !csum_block(c0, csum_root, phys_of(i, (offset + pos) / 4096) as u64),
        forall|l: int| in_write(offset, pos, l) ==> #[trigger] phys_of(ip, l) != phys_of(i, (offset + pos) / 4096),
        cp.block(phys_of(i, (offset + pos) / 4096) as u64) == c0.block(phys_of(i, (offset + pos) / 4096) as u64),
        forall|x: u64|
            x != phys_of(i, (offset + pos) / 4096) && !in_bitmap(bs, total, x as int) && !csum_block(c0, csum_root, x)
                ==> #[trigger] c.block(x) == cp.block(x),
{
    let cur = offset + pos;
    let lb = cur / 4096;
    let n = chunk.len() as int;
    let ph = phys_of(i, lb);
    assert(lb * 4096 + cur % 4096 == cur);
    assert forall|l: int| #[trigger] in_write(offset, pos + n, l) == (in_write(offset, pos, l) || l == lb) by {
        lemma_in_write_step(offset, pos, n, l);
    }
    lemma_in_write_step(offset, pos, n, lb);
    assert(!csum_block(c0, csum_root, ph as u64)) by {
        if phys_of(i0, lb) != 0 {
            assert(phys_of(i0, lb) == ph);
        } else if csum_block(c0, csum_root, ph as u64) {
            assert(block_used(c0, bs, ph as int));
            assert(block_used(cp, bs, ph as int));
        }
    }
    assert forall|l: int| in_write(offset, pos, l) implies #[trigger] phys_of(ip, l) != ph by {
        assert(phys_of(i, l) == phys_of(ip, l));
    }
    assert forall|x: u64| x != ph && !in_bitmap(bs, total, x as int) && !csum_block(c0, csum_root, x) implies #[trigger] c.block(
        x,
    ) == cp.block(x) by {
        if csum_block(cp, csum_root, x) {
        }
    }
}

/// The mapping after the step.
proof fn lemma_step_map(
    c0: TxContext,
    i0: Inode,
    cp: TxContext,
    ip: Inode,
    c: TxContext,
    i: Inode,
    bs: u64,
    total: int,
    csum_root: u64,
    offset: u64,
    data: Seq<u8>,
    pos: int,
    chunk: Seq<u8>,
)
    requires
        step_facts(c0, i0, cp, ip, c, i, bs, total, csum_root, offset, data, pos, chunk),
        forall|l: int| #[trigger] in_write(offset, pos + chunk.len(), l) == (in_write(offset, pos, l) || l == (offset + pos) / 4096),
        !in_write(offset, pos, (offset + pos) / 4096),
    ensures
        forall|l: int| #[trigger] phys_of(i0, l) != 0 ==> phys_of(i, l) == phys_of(i0, l),
        forall|l: int| !in_write(offset, pos + chunk.len(), l) ==> #[trigger] phys_of(i, l) == phys_of(i0, l),
        forall|l: int| in_write(offset, pos + chunk.len(), l) ==> #[trigger] phys_of(i, l) != 0,
        forall|l: int|
            in_write(offset, pos + chunk.len(), l) && phys_of(i0, l) == 0 ==> !block_used(c0, bs, #[trigger] phys_of(i, l)),
{
    let lb = (offset + pos) / 4096;
    let ph = phys_of(i, lb);
    assert(phys_of(ip, lb) == phys_of(i0, lb));
    assert forall|l: int| #[trigger] phys_of(i0, l) != 0 implies phys_of(i, l) == phys_of(i0, l) by {
        if l != lb {
            assert(phys_of(ip, l) == phys_of(i0, l));
        }
    }
    assert forall|l: int| !in_write(offset, pos + chunk.len(), l) implies #[trigger] phys_of(i, l) == phys_of(i0, l) by {
        assert(phys_of(ip, l) == phys_of(i0, l));
    }
    assert forall|l: int| in_write(offset, pos + chunk.len(), l) implies #[trigger] phys_of(i, l) != 0 by {
        if l != lb {
            assert(phys_of(ip, l) != 0);
        }
    }
    assert forall|l: int| in_write(offset, pos + chunk.len(), l) && phys_of(i0, l) == 0 implies !block_used(
        c0,
        bs,
        #[trigger] phys_of(i, l),
    ) by {
        if l == lb {
            if block_used(c0, bs, ph) {
                assert(block_used(cp, bs, ph));
            }
        } else {
            assert(phys_of(ip, l) == phys_of(i, l));
        }
    }
}

/// What the file reads after the step.
#[verifier::spinoff_prover]
#[verifier::rlimit(60)]
proof fn lemma_step_bytes(
    c0: TxContext,
    i0: Inode,
    cp: TxContext,
    ip: Inode,
    c: TxContext,
    i: Inode,
    bs: u64,
    total: int,
    csum_root: u64,
    offset: u64,
    data: Seq<u8>,
    pos: int,
    chunk: Seq<u8>,
)
    requires
        step_facts(c0, i0, cp, ip, c, i, bs, total, csum_root, offset, data, pos, chunk),
        !in_write(offset, pos, (offset + pos) / 4096),
        forall|l: int| in_write(offset, pos, l) ==> #[trigger] phys_of(ip, l) != phys_of(i, (offset + pos) / 4096),
        cp.block(phys_of(i, (offset + pos) / 4096) as u64) == c0.block(phys_of(i, (offset + pos) / 4096) as u64),
        forall|x: u64|
            x != phys_of(i, (offset + pos) / 4096) && !in_bitmap(bs, total, x as int) && !csum_block(c0, csum_root, x)
                ==> #[trigger] c.block(x) == cp.block(x),
    ensures
        forall|p: int| #[trigger] file_byte(c, i, p) == if offset <= p < offset + pos + chunk.len() {
            data[p - offset]
        } else {
            file_byte(c0, i, p)
        },
{
    let cur = offset + pos;
    let lb = cur / 4096;
    let n = chunk.len() as int;
    let ph = phys_of(i, lb);
    assert(lb * 4096 + cur % 4096 == cur);
    assert forall|p: int| #[trigger] file_byte(c, i, p) == if offset <= p < offset + pos + n {
        data[p - offset]
    } else {
        file_byte(c0, i, p)
    } by {
        let l = p / 4096;
        if l == lb {
            assert(p % 4096 == p - lb * 4096);
            if offset <= p < offset + pos + n {
                if p >= cur {
                    assert(chunk[p - cur] == data[p - offset]);
                } else {
                    assert(in_write(offset, pos, lb));
                }
            }
        } else {
            let q = phys_of(ip, l);
            assert(phys_of(i, l) == q);
            assert(file_byte(cp, ip, p) == if offset <= p < offset + pos {
                data[p - offset]
            } else {
                file_byte(c0, ip, p)
            });
            if q != 0 {
                assert(q != ph);
                assert(!in_bitmap(bs, total, q));
                assert(!csum_block(cp, csum_root, q as u64));
                assert(c.block(q as u64) == cp.block(q as u64));
            }
            if cur <= p < offset + pos + n {
                assert(p / 4096 == lb);
            }
        }
    }
}

/// The bitmap and the other blocks after the step.
proof fn lemma_step_blocks(
    c0: TxContext,
    i0: Inode,
    cp: TxContext,
    ip: Inode,
    c: TxContext,
    i: Inode,
    bs: u64,
    total: int,
    csum_root: u64,
    offset: u64,
    data: Seq<u8>,
    pos: int,
    chunk: Seq<u8>,
)
    requires
        step_facts(c0, i0, cp, ip, c, i, bs, total, csum_root, offset, data, pos, chunk),
        forall|l: int| #[trigger] in_write(offset, pos + chunk.len(), l) == (in_write(offset, pos, l) || l == (offset + pos) / 4096),
        !in_write(offset, pos, (offset + pos) / 4096),
        phys_of(ip, (offset + pos) / 4096) == phys_of(i0, (offset + pos) / 4096),
        forall|x: u64|
            x != phys_of(i, (offset + pos) / 4096) && !in_bitmap(bs, total, x as int) && !csum_block(c0, csum_root, x)
                ==> #[trigger] c.block(x) == cp.block(x),
    ensures
        forall|b: int|
            0 <= b < total ==> #[trigger] block_used(c, bs, b) == (block_used(c0, bs, b) || exists|l: int|
                in_write(offset, pos + chunk.len(), l) && phys_of(i0, l) == 0 && #[trigger] phys_of(i, l) == b),
        forall|x: u64|
            !in_bitmap(bs, total, x as int) && !csum_block(c0, csum_root, x) && !(exists|l: int|
                in_write(offset, pos + chunk.len(), l) && #[trigger] phys_of(i, l) == x) ==> #[trigger] c.block(x) == c0.block(x),
        forall|x: u64| #[trigger] csum_block(c, csum_root, x) ==> csum_block(c0, csum_root, x),
{
    let lb = (offset + pos) / 4096;
    let npos = pos + chunk.len();
    let ph = phys_of(i, lb);
    assert forall|b: int| 0 <= b < total implies #[trigger] block_used(c, bs, b) == (block_used(c0, bs, b) || exists|l: int|
        in_write(offset, npos, l) && phys_of(i0, l) == 0 && #[trigger] phys_of(i, l) == b) by {
        if exists|l: int| in_write(offset, pos, l) && phys_of(i0, l) == 0 && #[trigger] phys_of(ip, l) == b {
            let l = choose|l: int| in_write(offset, pos, l) && phys_of(i0, l) == 0 && #[trigger] phys_of(ip, l) == b;
            assert(phys_of(i, l) == b);
        }
        if exists|l: int| in_write(offset, npos, l) && phys_of(i0, l) == 0 && #[trigger] phys_of(i, l) == b {
            let l = choose|l: int| in_write(offset, npos, l) && phys_of(i0, l) == 0 && #[trigger] phys_of(i, l) == b;
            if l != lb {
                assert(phys_of(ip, l) == b);
            }
        }
        if phys_of(i0, lb) == 0 && b == ph {
            assert(in_write(offset, npos, lb));
        }
    }
    assert forall|x: u64|
        !in_bitmap(bs, total, x as int) && !csum_block(c0, csum_root, x) && !(exists|l: int|
            in_write(offset, npos, l) && #[trigger] phys_of(i, l) == x) implies #[trigger] c.block(x) == c0.block(x) by {
        assert(x != ph) by {
            assert(in_write(offset, npos, lb));
        }
        if exists|l: int| in_write(offset, pos, l) && #[trigger] phys_of(ip, l) == x {
            let l = choose|l: int| in_write(offset, pos, l) && #[trigger] phys_of(ip, l) == x;
            assert(phys_of(i, l) == x);
        }
        assert(c.block(x) == cp.block(x));
    }
}

/// The checksum records after the step.
proof fn lemma_step_csum(
    c0: TxContext,
    i0: Inode,
    cp: TxContext,
    ip: Inode,
    c: TxContext,
    i: Inode,
    bs: u64,
    total: int,
    csum_root: u64,
    offset: u64,
    data: Seq<u8>,
    pos: int,
    chunk: Seq<u8>,
)
    requires
        step_facts(c0, i0, cp, ip, c, i, bs, total, csum_root, offset, data, pos, chunk),
        forall|l: int| #[trigger] in_write(offset, pos + chunk.len(), l) == (in_write(offset, pos, l) || l == (offset + pos) / 4096),
        forall|l: int| in_write(offset, pos, l) ==> #[trigger] phys_of(ip, l) != phys_of(i, (offset + pos) / 4096),
    ensures
        csum_root != 0 ==> forall|k: ChecksumTreeKey|
            #[trigger] checksum_tree_at(csum_root).get(c, k) == checksum_tree_at(csum_root).get(c0, k) || (k.object_id == i0.ino
                && in_write(offset, pos + chunk.len(), k.logical_block as int) && checksum_tree_at(csum_root).get(c, k) == Some(
                csum_record(phys_of(i, k.logical_block as int) as u64, c.block(phys_of(i, k.logical_block as int) as u64)),
            )),
{
    let lb = (offset + pos) / 4096;
    let ph = phys_of(i, lb);
    if csum_root != 0 {
        let tr = checksum_tree_at(csum_root);
        assert forall|k: ChecksumTreeKey| #[trigger] tr.get(c, k) == tr.get(c0, k) || (k.object_id == i0.ino && in_write(
            offset,
            pos + chunk.len(),
            k.logical_block as int,
        ) && tr.get(c, k) == Some(
            csum_record(phys_of(i, k.logical_block as int) as u64, c.block(phys_of(i, k.logical_block as int) as u64)),
        )) by {
            let l = k.logical_block as int;
            if tr.get(c, k) != tr.get(cp, k) {
                assert(l == lb);
            } else if tr.get(cp, k) != tr.get(c0, k) {
                assert(in_write(offset, pos, l));
                let q = phys_of(ip, l);
                assert(q == phys_of(i, l));
                assert(q != ph);
                assert(!in_bitmap(bs, total, q));
                assert(!csum_block(cp, csum_root, q as u64));
                assert(c.block(q as u64) == cp.block(q as u64));
            }
        }
    }
}

/// Writing the next chunk of `data` carries the progress of the write one
/// block on.
proof fn lemma_write_step(
    c0: TxContext,
    i0: Inode,
    cp: TxContext,
    ip: Inode,
    c: TxContext,
    i: Inode,
    bs: u64,
    total: int,
    csum_root: u64,
    offset: u64,
    data: Seq<u8>,
    pos: int,
    chunk: Seq<u8>,
)
    requires
        step_facts(c0, i0, cp, ip, c, i, bs, total, csum_root, offset, data, pos, chunk),
    ensures
        write_progress(c0, i0, c, i, bs, total, csum_root, offset, data, pos + chunk.len()),
{
    lemma_step_base(c0, i0, cp, ip, c, i, bs, total, csum_root, offset, data, pos, chunk);
    lemma_step_map(c0, i0, cp, ip, c, i, bs, total, csum_root, offset, data, pos, chunk);
    lemma_step_bytes(c0, i0, cp, ip, c, i, bs, total, csum_root, offset, data, pos, chunk);
    lemma_step_blocks(c0, i0, cp, ip, c, i, bs, total, csum_root, offset, data, pos, chunk);
    lemma_step_csum(c0, i0, cp, ip, c, i, bs, total, csum_root, offset, data, pos, chunk);
}

/// The size of a file is not part of its layout nor of the progress of a
/// write.
proof fn lemma_resized(
    c0: TxContext,
    i0: Inode,
    c: TxContext,
    i: Inode,
    i2: Inode,
    bs: u64,
    total: int,
    csum_root: u64,
    offset: u64,
    data: Seq<u8>,
)
    requires
        i2 == (Inode { size: i2.size, ..i }),
        write_progress(c0, i0, c, i, bs, total, csum_root, offset, data, data.len() as int),
    ensures
        write_layout(c, bs, total, csum_root, i2),
        write_progress(c0, i0, c, i2, bs, total, csum_root, offset, data, data.len() as int),
{
    assert forall|l: int| #[trigger] phys_of(i2, l) == phys_of(i, l) by {}
    assert forall|p: int| #[trigger] file_byte(c, i2, p) == file_byte(c, i, p) by {
        assert(phys_of(i2, p / 4096) == phys_of(i, p / 4096));
    }
    assert forall|p: int| #[trigger] file_byte(c0, i2, p) == file_byte(c0, i, p) by {
        assert(phys_of(i2, p / 4096) == phys_of(i, p / 4096));
    }
    assert forall|b: int| 0 <= b < total implies #[trigger] block_used(c, bs, b) == (block_used(c0, bs, b) || exists|l: int|
        in_write(offset, data.len() as int, l) && phys_of(i0, l) == 0 && #[trigger] phys_of(i2, l) == b) by {
        if exists|l: int| in_write(offset, data.len() as int, l) && phys_of(i0, l) == 0 && #[trigger] phys_of(i, l) == b {
            let l = choose|l: int| in_write(offset, data.len() as int, l) && phys_of(i0, l) == 0 && #[trigger] phys_of(i, l) == b;
            assert(phys_of(i2, l) == b);
        }
    }
    assert forall|x: u64|
        !in_bitmap(bs, total, x as int) && !csum_block(c0, csum_root, x) && !(exists|l: int|
            in_write(offset, data.len() as int, l) && #[trigger] phys_of(i2, l) == x) implies #[trigger] c.block(x) == c0.block(x) by {
        if exists|l: int| in_write(offset, data.len() as int, l) && #[trigger] phys_of(i, l) == x {
            let l = choose|l: int| in_write(offset, data.len() as int, l) && #[trigger] phys_of(i, l) == x;
            assert(phys_of(i2, l) == x);
        }
    }
}

/// What `write_file` wrote reads back: once `data` stands at `offset`, the
/// file's bytes there are `data`, and a read of `data.len()` bytes from
/// `offset` of a file that reaches past them covers them all.
pub proof fn lemma_read_back(
    c0: TxContext,
    i0: Inode,
    c1: TxContext,
    i1: Inode,
    bs: u64,
    total: int,
    csum_root: u64,
    offset: u64,
    data: Seq<u8>,
)
    requires
        write_progress(c0, i0, c1, i1, bs, total, csum_root, offset, data, data.len() as int),
        offset + data.len() <= i1.size,
    ensures
        Seq::new(data.len(), |i: int| file_byte(c1, i1, offset + i)) == data,
        offset < i1.size ==> read_len(i1.size, offset, data.len() as u64) == data.len(),
{
    assert(Seq::new(data.len(), |i: int| file_byte(c1, i1, offset + i)) =~= data);
}

/// How many of the first `i` extents start below `nb` is at most `i`.
proof fn lemma_kept_count(ext: Seq<Extent>, i: int, nb: int)
    requires
        0 <= i,
    ensures
        0 <= kept_count(ext, i, nb) <= i,
    decreases i,
{
    if i > 0 {
        lemma_kept_count(ext, i - 1, nb);
    }
}

/// After `truncate_file` shrinks a file to `new_size` bytes, every logical
/// block past the new end reads as a hole.
pub proof fn lemma_truncated_past_end(i0: Inode, i1: Inode, new_size: u64, lb: int)
    requires
        extents_ok(i0),
        i1.extent_count == kept_count(i0.extents@, i0.extent_count as int, blocks_for(new_size)),
        i1.extents@ == Seq::new(
            i0.extents@.len(),
            |i: int|
                if i < i0.extent_count {
                    cut_extent(i0.extents@[i], blocks_for(new_size))
                } else {
                    i0.extents@[i]
                },
        ),
        lb >= blocks_for(new_size),
    ensures
        phys_of(i1, lb) == 0,
{
    let nb = blocks_for(new_size);
    let n = i0.extent_count as int;
    lemma_kept_count(i0.extents@, n, nb);
    assert forall|j: int| 0 <= j < i1.extent_count implies !#[trigger] covers(i1.extents@[j], lb) by {
        assert(i1.extents@[j] == cut_extent(i0.extents@[j], nb));
    }
    lemma_no_cover(i1.extents@, 0, i1.extent_count as int, lb);
}

/// Where none of the extents `i .. n` covers `x`, it is a hole.
proof fn lemma_no_cover(ext: Seq<Extent>, i: int, n: int, x: int)
    requires
        forall|j: int| i <= j < n ==> !#[trigger] covers(ext[j], x),
    ensures
        phys_from(ext, i, n, x) == 0,
    decreases n - i,
{
    if i < n {
        lemma_no_cover(ext, i + 1, n, x);
    }
}

/// How many bytes a read of `size` bytes from `offset` gives, for a file of
/// `file_size` bytes.
pub open spec fn read_len(file_size: u64, offset: u64, size: u64) -> u64 {
    if size < file_size - offset {
        size
    } else {
        (file_size - offset) as u64
    }
}

/// The two arrays hold the same bytes.
fn same_bytes(a: &[u8; 32], b: &[u8; 32]) -> (r: bool)
    ensures
        r == (a@ == b@),
{
    let mut i: usize = 0;
    while i < 32
        invariant
            i <= 32,
            forall|j: int| 0 <= j < i ==> a@[j] == b@[j],
        decreases 32 - i,
    {
        if a[i] != b[i] {
            return false;
        }
        i = i + 1;
    }
    assert(a@ =~= b@);
    true
}

/// The checksum bytes of a block.
fn checksum_of(buf: &[u8]) -> (r: [u8; 32])
    ensures
        r@ == block_checksum(buf@),
{
    let c = crc32(buf);
    let b = u32_to_le_bytes(c);
    proof {
        lemma_auto_spec_u32_to_from_le_bytes();
    }
    let mut out = [0u8; 32];
    out[0] = b[0];
    out[1] = b[1];
    out[2] = b[2];
    out[3] = b[3];
    assert(out@ =~= block_checksum(buf@));
    out
}

pub struct FileManager;

impl FileManager {
    /// The physical block that holds logical block `logical_block`, by the
    /// first extent that covers it; 0 for a hole.
    pub fn get_physical_block(inode: &Inode, logical_block: u64) -> (r: Result<u64, FsError>)
        requires
            extents_ok(*inode),
        ensures
            r == Ok::<u64, FsError>(phys_of(*inode, logical_block as int) as u64),
            0 <= phys_of(*inode, logical_block as int) <= u64::MAX,
    {
        let n = inode.extent_count as usize;
        let ghost ext = inode.extents@;
        let mut i: usize = 0;
        while i < n
            invariant
                n == inode.extent_count,
                ext == inode.extents@,
                extents_ok(*inode),
                i <= n,
                phys_from(ext, 0, n as int, logical_block as int) == phys_from(ext, i as int, n as int, logical_block as int),
            decreases n - i,
        {
            let e = inode.extents[i];
            assert(e == ext[i as int]);
            if logical_block >= e.logical_start && logical_block < e.logical_start + e.length {
                return Ok(e.physical_start + (logical_block - e.logical_start));
            }
            i = i + 1;
        }
        Ok(0)
    }

    /// Reads up to `size` bytes of the file of `inode` from `offset`: none
    /// from the end on, else up to the end of the file. A hole reads as
    /// zeros. Every block read is checked against the checksum tree at
    /// `checksum_tree_root` (none when 0); at the first that fails, the
    /// block is recorded in the bad-block tree at `bad_blocks_root` (none
    /// when 0; a record that would need a new node is dropped) and the read
    /// fails with `InvalidData`.
    pub fn read_file(
        ctx: &mut TxContext,
        checksum_tree_root: u64,
        bad_blocks_root: u64,
        inode: &mut Inode,
        offset: u64,
        size: u64,
    ) -> (r: Result<Vec<u8>, FsError>)
        requires
            extents_ok(*old(inode)),
            checksum_tree_root != 0 ==> checksum_tree_at(checksum_tree_root).inv(*old(ctx)),
            bad_blocks_root != 0 ==> bad_tree_at(bad_blocks_root).inv(*old(ctx)),
            offset < old(inode).size ==> read_len(old(inode).size, offset, size) <= usize::MAX,
        ensures
            *final(inode) == *old(inode),
            offset >= old(inode).size ==> (r matches Ok(v) && v@.len() == 0) && *final(ctx) == *old(ctx),
            offset < old(inode).size ==> {
                let n = read_len(old(inode).size, offset, size);
                let first = offset / 4096;
                let last = (offset + n - 1) / 4096;
                &&& (forall|lb: int| n > 0 && first <= lb <= last ==> #[trigger] block_verifies(*old(ctx), checksum_tree_root, *old(inode), lb))
                    ==> {
                    &&& (r matches Ok(v) && v@ == Seq::new(n as nat, |i: int| file_byte(*old(ctx), *old(inode), offset + i)))
                    &&& *final(ctx) == *old(ctx)
                }
                &&& r is Ok ==> forall|lb: int| n > 0 && first <= lb <= last ==> #[trigger] block_verifies(*old(ctx), checksum_tree_root, *old(inode), lb)
                &&& r is Err ==> {
                    &&& r == Err::<Vec<u8>, FsError>(FsError::InvalidData)
                    &&& exists|lb: int|
                        n > 0 && first <= lb <= last && !#[trigger] block_verifies(*old(ctx), checksum_tree_root, *old(inode), lb)
                            && (forall|l: int| first <= l < lb ==> #[trigger] block_verifies(*old(ctx), checksum_tree_root, *old(inode), l))
                            && (*final(ctx) == *old(ctx) || (bad_blocks_root != 0 && exists|t: u64|
                            BTree::holds_insert(
                                bad_tree_at(bad_blocks_root),
                                *old(ctx),
                                bad_tree_at(bad_blocks_root),
                                *final(ctx),
                                BadBlockKey { physical_block: phys_of(*old(inode), lb) as u64 },
                                #[trigger] bad_entry(t, old(inode).ino),
                            )))
                }
            },
    {
        let ghost c0 = *ctx;
        let ghost i0 = *inode;
        if offset >= inode.size {
            return Ok(Vec::new());
        }
        let read_size = if size < inode.size - offset { size } else { inode.size - offset };
        let ghost first = offset / 4096;
        let n = read_size as usize;
        let mut data: Vec<u8> = Vec::new();
        let mut data_pos: usize = 0;
        let mut current_offset = offset;
        while data_pos < n
            invariant
                *ctx == c0,
                *old(ctx) == c0,
                *inode == i0,
                *old(inode) == i0,
                extents_ok(i0),
                checksum_tree_root != 0 ==> checksum_tree_at(checksum_tree_root).inv(c0),
                bad_blocks_root != 0 ==> bad_tree_at(bad_blocks_root).inv(c0),
                offset < i0.size,
                n == read_size,
                read_size == read_len(i0.size, offset, size),
                offset + read_size <= u64::MAX,
                first == offset / 4096,
                data_pos <= n,
                current_offset == offset + data_pos,
                data@ == Seq::new(data_pos as nat, |i: int| file_byte(c0, i0, offset + i)),
                forall|l: int| first <= l < current_offset / 4096 || (data_pos > 0 && l == (current_offset - 1) / 4096)
                    ==> #[trigger] block_verifies(c0, checksum_tree_root, i0, l),
                data_pos > 0 && data_pos < n ==> current_offset % 4096 == 0,
            decreases n - data_pos,
        {
            let logical_block = current_offset / 4096;
            let block_offset = (current_offset % 4096) as usize;
            let physical_block = match Self::get_physical_block(inode, logical_block) {
                Ok(p) => p,
                Err(e) => {
                    return Err(e);
                },
            };
            let mut buf: Vec<u8> = vec![0u8; BLOCK_SIZE];
            if physical_block != 0 {
                buf = ctx.read_block(physical_block);
                if checksum_tree_root != 0 {
                    let csum_tree = ChecksumTree::new(checksum_tree_root);
                    proof {
                        BTree::lemma_same_tree(csum_tree.btree, checksum_tree_at(checksum_tree_root));
                    }
                    let key = ChecksumTreeKey { object_id: inode.ino, logical_block };
                    if let Ok(Some(val)) = csum_tree.lookup_checksum(ctx, &key) {
                        let expected = checksum_of(buf.as_slice());
                        if !same_bytes(&val.checksum_bytes, &expected) {
                            proof {
                                assert(!block_verifies(c0, checksum_tree_root, i0, logical_block as int));
                            }
                            let ghost lb = logical_block as int;
                            proof {
                                vstd::arithmetic::div_mod::lemma_div_is_ordered(current_offset as int, offset + read_size - 1, 4096);
                                vstd::arithmetic::div_mod::lemma_div_is_ordered(offset as int, current_offset as int, 4096);
                                assert(forall|l: int| first <= l < lb ==> #[trigger] block_verifies(c0, checksum_tree_root, i0, l));
                            }
                            if bad_blocks_root != 0 {
                                let mut bb_mgr = BadBlockManager::new(bad_blocks_root);
                                proof {
                                    BTree::lemma_same_tree(bb_mgr.btree, bad_tree_at(bad_blocks_root));
                                }
                                let mut refuse = FailingAllocator { error: FsError::Other };
                                let res = bb_mgr.mark_bad_block(ctx, physical_block, inode.ino, &mut refuse);
                                proof {
                                    BTree::lemma_same_tree(bb_mgr.btree, bad_tree_at(bad_blocks_root));
                                    if res is Ok {
                                        let t = choose|t: u64|
                                            BTree::holds_insert(
                                                bad_tree_at(bad_blocks_root),
                                                c0,
                                                bad_tree_at(bad_blocks_root),
                                                *ctx,
                                                BadBlockKey { physical_block },
                                                #[trigger] bad_entry(t, i0.ino),
                                            );
                                        assert(BTree::holds_insert(
                                            bad_tree_at(bad_blocks_root),
                                            c0,
                                            bad_tree_at(bad_blocks_root),
                                            *ctx,
                                            BadBlockKey { physical_block: phys_of(i0, lb) as u64 },
                                            bad_entry(t, i0.ino),
                                        ));
                                    }
                                }
                            }
                            return Err(FsError::InvalidData);
                        }
                    }
                }
            } else {
                proof {
                    assert(buf@ =~= Seq::new(4096, |i: int| 0u8));
                }
            }
            let room = BLOCK_SIZE - block_offset;
            let chunk_size = if (room as u64) < (n - data_pos) as u64 { room } else { n - data_pos };
            let ghost d0 = data@;
            let mut k: usize = 0;
            while k < chunk_size
                invariant
                    k <= chunk_size,
                    block_offset + chunk_size <= BLOCK_SIZE,
                    buf@.len() == BLOCK_SIZE,
                    data@ == d0 + buf@.subrange(block_offset as int, block_offset + k),
                decreases chunk_size - k,
            {
                data.push(buf[block_offset + k]);
                k = k + 1;
            }
            proof {
                assert forall|i: int| 0 <= i < data_pos + chunk_size implies #[trigger] data@[i] == file_byte(c0, i0, offset + i) by {
                    if i >= data_pos {
                        let p = offset + i;
                        assert(p / 4096 == logical_block as int);
                        assert(p % 4096 == block_offset + (i - data_pos));
                    }
                }
                assert(data@ =~= Seq::new((data_pos + chunk_size) as nat, |i: int| file_byte(c0, i0, offset + i)));
                assert(block_verifies(c0, checksum_tree_root, i0, logical_block as int));
            }
            data_pos = data_pos + chunk_size;
            current_offset = current_offset + chunk_size as u64;
        }
        proof {
            let last = (offset + read_size - 1) / 4096;
            assert forall|lb: int| read_size > 0 && first <= lb <= last implies #[trigger] block_verifies(c0, checksum_tree_root, i0, lb) by {
                vstd::arithmetic::div_mod::lemma_div_is_ordered(offset + read_size - 1, (offset + read_size) as int, 4096);
            }
        }
        Ok(data)
    }

    /// Writes `data` into the file of `inode` at `offset`, block by block: a
    /// hole gets the first free block below `blocks_per_group` in the bitmap
    /// of `bg_desc` and is added to the extents; a block written in part
    /// keeps the rest of its bytes; the checksum of each block written is
    /// recorded in the checksum tree at `checksum_tree_root` (none when 0;
    /// a record that would need a new node is dropped). The size grows to
    /// the end of the write. A block that cannot be had, or an extent list
    /// that is full, stops the write with `OutOfMemory`.
    #[verifier::spinoff_prover]
    #[verifier::rlimit(80)]
    pub fn write_file(
        ctx: &mut TxContext,
        bg_desc: &BlockGroupDescriptor,
        blocks_per_group: u32,
        checksum_tree_root: u64,
        inode: &mut Inode,
        offset: u64,
        data: &[u8],
    ) -> (r: Result<(), FsError>)
        requires
            write_layout(*old(ctx), bg_desc.bg_block_bitmap, blocks_per_group as int, checksum_tree_root, *old(inode)),
            offset + data@.len() <= u64::MAX,
        ensures
            final(inode).ino == old(inode).ino,
            write_layout(*final(ctx), bg_desc.bg_block_bitmap, blocks_per_group as int, checksum_tree_root, *final(inode)),
            forall|l: int| #[trigger] phys_of(*old(inode), l) != 0 ==> phys_of(*final(inode), l) == phys_of(*old(inode), l),
            forall|l: int| !in_write(offset, data@.len() as int, l) ==> #[trigger] phys_of(*final(inode), l) == phys_of(*old(inode), l),
            (forall|l: int| in_write(offset, data@.len() as int, l) ==> #[trigger] phys_of(*old(inode), l) != 0) ==> r is Ok,
            r is Err ==> r == Err::<(), FsError>(FsError::OutOfMemory) && *final(inode) == (Inode {
                extents: final(inode).extents,
                extent_count: final(inode).extent_count,
                ..*old(inode)
            }),
            r is Err ==> (forall|t: int| !#[trigger] fits(*final(ctx), bg_desc.bg_block_bitmap, blocks_per_group as int, 1, t))
                || final(inode).extent_count >= MAX_INLINE_EXTENTS,
            r is Ok ==> {
                &&& *final(inode) == (Inode {
                    extents: final(inode).extents,
                    extent_count: final(inode).extent_count,
                    size: if offset + data@.len() > old(inode).size {
                        (offset + data@.len()) as u64
                    } else {
                        old(inode).size
                    },
                    ..*old(inode)
                })
                &&& write_progress(
                    *old(ctx),
                    *old(inode),
                    *final(ctx),
                    *final(inode),
                    bg_desc.bg_block_bitmap,
                    blocks_per_group as int,
                    checksum_tree_root,
                    offset,
                    data@,
                    data@.len() as int,
                )
            },
    {
        let ghost c0 = *ctx;
        let ghost i0 = *inode;
        let bs = bg_desc.bg_block_bitmap;
        let total = blocks_per_group as u64;
        let ghost tr = checksum_tree_at(checksum_tree_root);
        let len = data.len();
        let ghost first = offset / 4096;
        let mut data_pos: usize = 0;
        let mut current_offset = offset;
        while data_pos < len
            invariant
                *old(ctx) == c0,
                *old(inode) == i0,
                bs == bg_desc.bg_block_bitmap,
                total == blocks_per_group,
                tr == checksum_tree_at(checksum_tree_root),
                len == data@.len(),
                offset + len <= u64::MAX,
                first == offset / 4096,
                data_pos <= len,
                current_offset == offset + data_pos,
                data_pos > 0 && data_pos < len ==> current_offset % 4096 == 0,
                *inode == (Inode { extents: inode.extents, extent_count: inode.extent_count, ..i0 }),
                write_layout(c0, bs, total as int, checksum_tree_root, i0),
                write_progress(c0, i0, *ctx, *inode, bs, total as int, checksum_tree_root, offset, data@, data_pos as int),
            decreases len - data_pos,
        {
            let logical_block = current_offset / 4096;
            let block_offset = (current_offset % 4096) as usize;
            let room = BLOCK_SIZE - block_offset;
            let chunk_size = if room < len - data_pos { room } else { len - data_pos };
            let chunk = slice_of(data, data_pos, chunk_size);
            let ghost cp = *ctx;
            let ghost ip = *inode;
            match Self::write_chunk(ctx, bs, total, checksum_tree_root, inode, logical_block, block_offset, chunk.as_slice()) {
                Ok(()) => {},
                Err(e) => {
                    proof {
                        lemma_write_stopped(i0, ip, offset, len as int, data_pos as int);
                    }
                    return Err(e);
                },
            }
            proof {
                lemma_write_step(
                    c0,
                    i0,
                    cp,
                    ip,
                    *ctx,
                    *inode,
                    bs,
                    total as int,
                    checksum_tree_root,
                    offset,
                    data@,
                    data_pos as int,
                    chunk@,
                );
            }
            data_pos = data_pos + chunk_size;
            current_offset = current_offset + chunk_size as u64;
        }
        let ghost before = *inode;
        if offset + len as u64 > inode.size {
            inode.size = offset + len as u64;
        }
        proof {
            lemma_resized(c0, i0, *ctx, before, *inode, bs, total as int, checksum_tree_root, offset, data@);
        }
        Ok(())
    }

    /// Writes `chunk` into logical block `lb` of the file of `inode`, from
    /// byte `block_offset` of the block: a hole first gets the first free
    /// block below `total` in the bitmap from `bs`; a partial block keeps
    /// the rest of what it held; the checksum of the block is then recorded
    /// in the checksum tree at `csum_root` (none when 0; a record that would
    /// need a new node is dropped).
    #[verifier::spinoff_prover]
    #[verifier::rlimit(60)]
    fn write_chunk(
        ctx: &mut TxContext,
        bs: u64,
        total: u64,
        csum_root: u64,
        inode: &mut Inode,
        lb: u64,
        block_offset: usize,
        chunk: &[u8],
    ) -> (r: Result<(), FsError>)
        requires
            write_layout(*old(ctx), bs, total as int, csum_root, *old(inode)),
            lb <= u64::MAX / 4096,
            0 < chunk@.len(),
            block_offset + chunk@.len() <= BLOCK_SIZE,
        ensures
            *final(inode) == (Inode { extents: final(inode).extents, extent_count: final(inode).extent_count, ..*old(inode) }),
            write_layout(*final(ctx), bs, total as int, csum_root, *final(inode)),
            forall|x: int| x != lb ==> #[trigger] phys_of(*final(inode), x) == phys_of(*old(inode), x),
            phys_of(*old(inode), lb as int) != 0 ==> phys_of(*final(inode), lb as int) == phys_of(*old(inode), lb as int),
            forall|b: int| 0 <= b < total && #[trigger] block_used(*old(ctx), bs, b) ==> block_used(*final(ctx), bs, b),
            forall|x: u64| #[trigger] csum_block(*final(ctx), csum_root, x) ==> csum_block(*old(ctx), csum_root, x),
            r is Err ==> {
                &&& r == Err::<(), FsError>(FsError::OutOfMemory)
                &&& phys_of(*old(inode), lb as int) == 0
                &&& *final(inode) == *old(inode)
                &&& (forall|t: int| !#[trigger] fits(*final(ctx), bs, total as int, 1, t)) || old(inode).extent_count
                    >= MAX_INLINE_EXTENTS
            },
            r is Ok ==> chunk_written(*old(ctx), *old(inode), *final(ctx), *final(inode), bs, total as int, csum_root, lb as int, block_offset as int, chunk@),
    {
        let ghost c0 = *ctx;
        let ghost i0 = *inode;
        let ghost tr = checksum_tree_at(csum_root);
        let mut physical_block = match Self::get_physical_block(inode, lb) {
            Ok(p) => p,
            Err(_) => 0,
        };
        if physical_block == 0 {
            let s = match Allocator::allocate_extents(ctx, bs, total, 1) {
                Ok(s) => s,
                Err(e) => {
                    return Err(e);
                },
            };
            let ghost c1 = *ctx;
            proof {
                assert(!block_used(c0, bs, s as int));
                assert(s != 0);
                assert(s < total);
                assert forall|b: int| 0 <= b < total implies #[trigger] block_used(c1, bs, b) == (block_used(c0, bs, b) || b == s) by {
                    vstd::arithmetic::div_mod::lemma_div_is_ordered(b, total + 32767, 32768);
                }
                vstd::arithmetic::div_mod::lemma_div_is_ordered(s as int, total + 32767, 32768);
                assert(in_bitmap(bs, total as int, bitmap_block_of(bs, s as int)));
                assert forall|x: u64| #[trigger] csum_block(c0, csum_root, x) implies c1.block(x) == c0.block(x) by {
                    assert(!in_bitmap(bs, total as int, x as int));
                }
                lemma_tree_kept(c0, c1, csum_root);
                lemma_layout_keep(c0, c1, bs, total as int, csum_root, i0);
                assert(!csum_block(c1, csum_root, s)) by {
                    if csum_block(c1, csum_root, s) {
                        assert(csum_block(c0, csum_root, s));
                    }
                }
            }
            match Self::add_extent(inode, lb, s, 1) {
                Ok(()) => {},
                Err(e) => {
                    return Err(e);
                },
            }
            proof {
                lemma_extent_added(i0, *inode, lb, s);
            }
            physical_block = s;
        }
        let ghost c1 = *ctx;
        let ghost i1 = *inode;
        let ph = physical_block;
        proof {
            if phys_of(i0, lb as int) != 0 {
                assert(i1 == i0);
                assert(c1 == c0);
                assert(phys_of(i0, lb as int) != 0);
            }
            assert(phys_of(i1, lb as int) == ph);
            assert(!in_bitmap(bs, total as int, ph as int));
            assert(!csum_block(c1, csum_root, ph));
        }
        let chunk_len = chunk.len();
        let mut buf: Vec<u8> = vec![0u8; BLOCK_SIZE];
        if chunk_len < BLOCK_SIZE && ph != 0 {
            buf = ctx.read_block(ph);
        }
        let mut k: usize = 0;
        while k < chunk_len
            invariant
                buf@.len() == BLOCK_SIZE,
                block_offset + chunk_len <= BLOCK_SIZE,
                chunk_len == chunk@.len(),
                k <= chunk_len,
                forall|i: int|
                    0 <= i < BLOCK_SIZE ==> #[trigger] buf@[i] == if block_offset <= i < block_offset + k {
                        chunk@[i - block_offset]
                    } else if chunk_len < BLOCK_SIZE {
                        c1.block(ph)[i]
                    } else {
                        0u8
                    },
            decreases chunk_len - k,
        {
            buf.set(block_offset + k, chunk[k]);
            k = k + 1;
        }
        ctx.write_block(ph, buf.as_slice());
        let ghost c2 = *ctx;
        proof {
            assert forall|b: int| 0 <= b < total implies #[trigger] block_used(c2, bs, b) == block_used(c1, bs, b) by {
                vstd::arithmetic::div_mod::lemma_div_is_ordered(b, total + 32767, 32768);
                assert(in_bitmap(bs, total as int, bitmap_block_of(bs, b)));
            }
            assert forall|x: u64| #[trigger] csum_block(c1, csum_root, x) implies c2.block(x) == c1.block(x) by {}
            lemma_tree_kept(c1, c2, csum_root);
            lemma_layout_keep(c1, c2, bs, total as int, csum_root, i1);
        }
        if csum_root != 0 {
            let csum_bytes = checksum_of(buf.as_slice());
            let mut csum_tree = ChecksumTree::new(csum_root);
            proof {
                BTree::lemma_same_tree(csum_tree.btree, tr);
                crate::codec::lemma_array32(csum_bytes);
            }
            let key = ChecksumTreeKey { object_id: inode.ino, logical_block: lb };
            let val = ChecksumTreeValue {
                physical_block: ph,
                checksum_bytes: csum_bytes,
                generation: 1,
                algorithm_id: BLOCK_CHECKSUM_ALGORITHM,
                verification_status: 1,
            };
            let mut refuse = FailingAllocator { error: FsError::Other };
            let _ = csum_tree.insert_checksum(ctx, key, val, &mut refuse);
            proof {
                BTree::lemma_same_tree(csum_tree.btree, tr);
            }
        }
        let ghost c3 = *ctx;
        proof {
            assert(c2.block(ph) == buf@);
            if csum_root != 0 {
                assert forall|x: u64| #[trigger] csum_block(c3, csum_root, x) implies csum_block(c2, csum_root, x) by {}
                assert forall|x: u64| !csum_block(c2, csum_root, x) implies #[trigger] c3.block(x) == c2.block(x) by {}
            }
            assert(c3.block(ph) == buf@);
            assert forall|b: int| 0 <= b < total implies #[trigger] block_used(c3, bs, b) == block_used(c2, bs, b) by {
                vstd::arithmetic::div_mod::lemma_div_is_ordered(b, total + 32767, 32768);
                let x = bitmap_block_of(bs, b);
                assert(in_bitmap(bs, total as int, x));
                if csum_block(c2, csum_root, x as u64) {
                    assert(!in_bitmap(bs, total as int, x));
                }
            }
            lemma_layout_keep(c2, c3, bs, total as int, csum_root, i1);
            assert forall|i: int| 0 <= i < BLOCK_SIZE implies #[trigger] c3.block(ph as u64)[i] == if block_offset <= i < block_offset
                + chunk@.len() {
                chunk@[i - block_offset]
            } else {
                c0.block(ph as u64)[i]
            } by {
                if phys_of(i0, lb as int) == 0 {
                    assert(c1.block(ph) == c0.block(ph)) by {
                        assert(ph as int != bitmap_block_of(bs, ph as int));
                    }
                }
            }
        }
        Ok(())
    }

    /// Truncates the file of `inode` to `new_size` bytes. Growing only sets
    /// the size. Shrinking frees, in the bitmap of `bg_desc`, every block
    /// past the new end: an extent wholly beyond it is freed and cleared in
    /// place, one that runs past it is shortened; the extent count becomes
    /// the number of extents that start before the new end.
    pub fn truncate_file(ctx: &mut TxContext, bg_desc: &BlockGroupDescriptor, inode: &mut Inode, new_size: u64) -> (r: Result<(), FsError>)
        requires
            extents_ok(*old(inode)),
            bitmap_covers(*old(inode), bg_desc.bg_block_bitmap),
        ensures
            r is Ok,
            new_size >= old(inode).size ==> *final(ctx) == *old(ctx) && *final(inode) == (Inode { size: new_size, ..*old(inode) }),
            new_size < old(inode).size ==> {
                let ext = old(inode).extents@;
                let n = old(inode).extent_count as int;
                let nb = blocks_for(new_size);
                let bs = bg_desc.bg_block_bitmap;
                &&& *final(inode) == (Inode {
                    extents: final(inode).extents,
                    extent_count: final(inode).extent_count,
                    size: new_size,
                    ..*old(inode)
                })
                &&& final(inode).extent_count == kept_count(ext, n, nb)
                &&& final(inode).extents@ == Seq::new(
                    ext.len(),
                    |i: int|
                        if i < n {
                            cut_extent(ext[i], nb)
                        } else {
                            ext[i]
                        },
                )
                &&& forall|b: int|
                    0 <= b && bitmap_block_of(bs, b) <= u64::MAX ==> #[trigger] block_used(*final(ctx), bs, b) == (block_used(
                        *old(ctx),
                        bs,
                        b,
                    ) && !cut_frees(ext, n, nb, b))
                &&& forall|x: u64| !cut_touches(ext, n, nb, bs, x as int) ==> #[trigger] final(ctx).block(x) == old(ctx).block(x)
            },
    {
        if new_size >= inode.size {
            inode.size = new_size;
            return Ok(());
        }
        let bs = bg_desc.bg_block_bitmap;
        let new_blocks = new_size / 4096 + if new_size % 4096 != 0 { 1u64 } else { 0u64 };
        assert(new_blocks == blocks_for(new_size));
        let ghost c0 = *ctx;
        let ghost i0 = *inode;
        let ghost ext = inode.extents@;
        let ghost nb = new_blocks as int;
        let n = inode.extent_count as usize;
        let mut kept: u16 = 0;
        let mut i: usize = 0;
        while i < n
            invariant
                n == i0.extent_count,
                ext == i0.extents@,
                extents_ok(i0),
                bitmap_covers(i0, bs),
                nb == new_blocks,
                i <= n,
                *inode == (Inode { extents: inode.extents, ..i0 }),
                kept == kept_count(ext, i as int, nb),
                kept <= i,
                inode.extents@.len() == ext.len(),
                forall|j: int| 0 <= j < ext.len() ==> #[trigger] inode.extents@[j] == if j < i { cut_extent(ext[j], nb) } else { ext[j] },
                forall|b: int|
                    0 <= b && bitmap_block_of(bs, b) <= u64::MAX ==> #[trigger] block_used(*ctx, bs, b) == (block_used(c0, bs, b)
                        && !cut_frees(ext, i as int, nb, b)),
                forall|x: u64| !cut_touches(ext, i as int, nb, bs, x as int) ==> #[trigger] ctx.block(x) == c0.block(x),
            decreases n - i,
        {
            let e = inode.extents[i];
            assert(e == ext[i as int]);
            let ghost c1 = *ctx;
            let ghost rg = cut_range(e, nb);
            if e.logical_start >= new_blocks {
                match Allocator::free_extents(ctx, bs, e.physical_start, e.length) {
                    Ok(()) => {},
                    Err(err) => {
                        return Err(err);
                    },
                }
                inode.extents[i] = Extent { logical_start: 0, physical_start: 0, length: 0 };
            } else if e.logical_start + e.length > new_blocks {
                let keep = new_blocks - e.logical_start;
                let free = e.length - keep;
                match Allocator::free_extents(ctx, bs, e.physical_start + keep, free) {
                    Ok(()) => {},
                    Err(err) => {
                        return Err(err);
                    },
                }
                inode.extents[i] = Extent { length: keep, ..e };
                kept = kept + 1;
            } else {
                kept = kept + 1;
            }
            proof {
                let c2 = *ctx;
                assert(rg == cut_range(ext[i as int], nb));
                assert forall|b: int| 0 <= b && bitmap_block_of(bs, b) <= u64::MAX implies #[trigger] block_used(c2, bs, b) == (
                    block_used(c0, bs, b) && !cut_frees(ext, i + 1, nb, b)) by {
                    if rg.0 <= b < rg.0 + rg.1 {
                        assert(cut_frees(ext, i + 1, nb, b));
                    } else {
                        assert(cut_frees(ext, i + 1, nb, b) == cut_frees(ext, i as int, nb, b)) by {
                            if cut_frees(ext, i + 1, nb, b) {
                                let j = choose|j: int| 0 <= j < i + 1 && #[trigger] cut_range(ext[j], nb).0 <= b < cut_range(ext[j], nb).0
                                    + cut_range(ext[j], nb).1;
                                assert(j != i);
                            }
                        }
                    }
                }
                assert forall|x: u64| !cut_touches(ext, i + 1, nb, bs, x as int) implies #[trigger] c2.block(x) == c0.block(x) by {
                    assert(!cut_touches(ext, i as int, nb, bs, x as int)) by {
                        if cut_touches(ext, i as int, nb, bs, x as int) {
                            let j = choose|j: int|
                                0 <= j < i && #[trigger] cut_range(ext[j], nb).1 > 0 && bitmap_block_of(bs, cut_range(ext[j], nb).0) <= x
                                    <= bitmap_block_of(bs, cut_range(ext[j], nb).0 + cut_range(ext[j], nb).1 - 1);
                            assert(cut_touches(ext, i + 1, nb, bs, x as int));
                        }
                    }
                    if rg.1 > 0 {
                        if bitmap_block_of(bs, rg.0) <= x <= bitmap_block_of(bs, rg.0 + rg.1 - 1) {
                            assert(cut_touches(ext, i + 1, nb, bs, x as int));
                        }
                    }
                }
            }
            i = i + 1;
        }
        inode.extent_count = kept;
        inode.size = new_size;
        proof {
            assert(inode.extents@ =~= Seq::new(ext.len(), |j: int| if j < n { cut_extent(ext[j], nb) } else { ext[j] }));
        }
        Ok(())
    }

    /// Adds the run of `length` blocks from logical block `logical_block`,
    /// stored from `physical_block`, to the extents of `inode`: it extends
    /// the first extent that it continues, at its end or at its start, and
    /// takes a new extent otherwise. With every extent in use it fails with
    /// `OutOfMemory` and changes nothing.
    pub fn add_extent(inode: &mut Inode, logical_block: u64, physical_block: u64, length: u64) -> (r: Result<(), FsError>)
        requires
            extents_ok(*old(inode)),
            logical_block + length <= u64::MAX,
            physical_block + length <= u64::MAX,
        ensures
            *final(inode) == (Inode { extents: final(inode).extents, extent_count: final(inode).extent_count, ..*old(inode) }),
            join_at(old(inode).extents@, 0, old(inode).extent_count as int, logical_block as int, physical_block as int, length as int)
                matches Some((i, at_end)) ==> {
                &&& r is Ok
                &&& final(inode).extent_count == old(inode).extent_count
                &&& final(inode).extents@ == old(inode).extents@.update(
                    i,
                    joined(old(inode).extents@[i], logical_block, physical_block, length, at_end),
                )
            },
            join_at(old(inode).extents@, 0, old(inode).extent_count as int, logical_block as int, physical_block as int, length as int)
                is None ==> if old(inode).extent_count < MAX_INLINE_EXTENTS {
                &&& r is Ok
                &&& final(inode).extent_count == old(inode).extent_count + 1
                &&& final(inode).extents@ == old(inode).extents@.update(
                    old(inode).extent_count as int,
                    Extent { logical_start: logical_block, physical_start: physical_block, length },
                )
            } else {
                &&& r == Err::<(), FsError>(FsError::OutOfMemory)
                &&& *final(inode) == *old(inode)
            },
    {
        let n = inode.extent_count as usize;
        let ghost ext = inode.extents@;
        let ghost target = join_at(ext, 0, n as int, logical_block as int, physical_block as int, length as int);
        let mut i: usize = 0;
        while i < n
            invariant
                *inode == *old(inode),
                n == inode.extent_count,
                ext == inode.extents@,
                extents_ok(*inode),
                logical_block + length <= u64::MAX,
                physical_block + length <= u64::MAX,
                i <= n,
                target == join_at(ext, 0, n as int, logical_block as int, physical_block as int, length as int),
                target == join_at(ext, i as int, n as int, logical_block as int, physical_block as int, length as int),
            decreases n - i,
        {
            let e = inode.extents[i];
            assert(e == ext[i as int]);
            if e.logical_start + e.length == logical_block && e.physical_start + e.length == physical_block {
                inode.extents[i] = Extent { length: e.length + length, ..e };
                assert(inode.extents@ =~= ext.update(i as int, joined(e, logical_block, physical_block, length, true)));
                return Ok(());
            }
            if logical_block + length == e.logical_start && physical_block + length == e.physical_start {
                inode.extents[i] = Extent { logical_start: logical_block, physical_start: physical_block, length: e.length + length };
                assert(inode.extents@ =~= ext.update(i as int, joined(e, logical_block, physical_block, length, false)));
                return Ok(());
            }
            i = i + 1;
        }
        if n < MAX_INLINE_EXTENTS {
            inode.extents[n] = Extent { logical_start: logical_block, physical_start: physical_block, length };
            inode.extent_count = inode.extent_count + 1;
            assert(inode.extents@ =~= ext.update(n as int, Extent { logical_start: logical_block, physical_start: physical_block, length }));
            Ok(())
        } else {
            Err(FsError::OutOfMemory)
        }
    }
}

} // verus!
