//! Directory contents stored as a file of variable-length entries. An entry
//! is a 16-byte header (inode number at 0, record length at 8, name length
//! at 10, file type at 11) followed by its name; a record with inode 0 is
//! free; a record length of 0 ends the list.
use crate::codec::{get_u16, get_u32, get_u64, put_bytes, put_u16, put_u32, put_u64, put_u8, put_zeros};
use crate::error::FsError;
use crate::file::writer::{
    bad_tree_at, block_verifies, file_byte, in_write, phys_of, write_layout, write_progress, FileManager,
};
use crate::inode::{u16_at, u32_at, u64_at};
use crate::allocator::bitmap::fits;
use crate::ondisk::records::{BlockGroupDescriptor, Inode, MAX_INLINE_EXTENTS};
use crate::transaction::TxContext;
use vstd::bytes::*;
use vstd::prelude::*;

verus! {

/// What `String::from_utf8_lossy` makes of `bytes`.
pub uninterp spec fn utf8_lossy(bytes: Seq<u8>) -> Seq<char>;

/// `String::from_utf8_lossy`: the bytes as UTF-8, with each invalid
/// sequence replaced by U+FFFD. Stated here: the result is a function of the
/// bytes, and ASCII bytes come out as the same characters.
#[verifier::external_body]
pub(crate) fn lossy_string(bytes: &[u8]) -> (r: String)
    ensures
        r@ == utf8_lossy(bytes@),
        (forall|i: int| 0 <= i < bytes@.len() ==> #[trigger] bytes@[i] < 128) ==> r@ == Seq::new(
            bytes@.len(),
            |i: int| bytes@[i] as char,
        ),
{
    String::from_utf8_lossy(bytes).into_owned()
}

/// An entry of a directory.
pub struct DirEntry {
    pub ino: u64,
    pub name: String,
    pub file_type: u8,
}

/// The bytes of the directory file of `inode`: `size` of them.
pub open spec fn dir_bytes(c: TxContext, inode: Inode) -> Seq<u8> {
    Seq::new(inode.size as nat, |p: int| file_byte(c, inode, p))
}

/// Every block of the file of `inode` passes its check against the
/// checksum tree at `csum_root`.
pub open spec fn dir_verifies(c: TxContext, csum_root: u64, inode: Inode) -> bool {
    forall|lb: int| 0 <= lb <= (inode.size - 1) / 4096 ==> #[trigger] block_verifies(c, csum_root, inode, lb)
}

/// How many bytes of `d` lie from `off` on.
pub open spec fn left(d: Seq<u8>, off: int) -> nat {
    if 0 <= off <= d.len() {
        (d.len() - off) as nat
    } else {
        0
    }
}

/// The record length of the entry at `off`.
pub open spec fn rec_len_at(d: Seq<u8>, off: int) -> u16 {
    u16_at(d, off + 8)
}

/// The bytes an entry takes for a name of `name_len` bytes: header and
/// name, rounded up to a multiple of 8.
pub open spec fn entry_size(name_len: int) -> int {
    (16 + name_len + 7) / 8 * 8
}

/// The used entries of `d` from offset `off` on, in order, as inode
/// number, name bytes and file type; an entry whose name runs past the end
/// is skipped.
pub open spec fn entries_from(d: Seq<u8>, off: int) -> Seq<(u64, Seq<u8>, u8)>
    decreases left(d, off),
{
    if off < 0 || off + 16 > d.len() || rec_len_at(d, off) == 0 {
        Seq::empty()
    } else {
        let rest = entries_from(d, off + rec_len_at(d, off));
        let nl = d[off + 10] as int;
        if u64_at(d, off) != 0 && off + 16 + nl <= d.len() {
            seq![(u64_at(d, off), d.subrange(off + 16, off + 16 + nl), d[off + 11])] + rest
        } else {
            rest
        }
    }
}

/// An entry of `total` bytes: the header, the name, then zeros.
pub open spec fn entry_seq(ino: u64, rec_len: u16, name_len: u8, file_type: u8, padding: u32, name: Seq<u8>, total: int) -> Seq<
    u8,
> {
    spec_u64_to_le_bytes(ino) + spec_u16_to_le_bytes(rec_len) + seq![name_len, file_type] + spec_u32_to_le_bytes(padding) + name
        + Seq::new((total - 16 - name.len()) as nat, |i: int| 0u8)
}

/// Where adding `name` (`req` bytes) finds room from offset `off` of `d`:
/// the writes, as offset and bytes, that store it; an error for a record
/// length of 0. `None` where a used entry is shorter than its own name
/// needs, or its name runs past the end.
pub open spec fn add_scan(d: Seq<u8>, off: int, req: int, name: Seq<u8>, ino: u64, file_type: u8) -> Option<
    Result<Seq<(int, Seq<u8>)>, FsError>,
>
    decreases left(d, off),
{
    if off < 0 || off + 16 > d.len() {
        Some(Ok(seq![(d.len() as int, entry_seq(ino, req as u16, name.len() as u8, file_type, 0, name, req))]))
    } else {
        let rl = rec_len_at(d, off) as int;
        if rl == 0 {
            Some(Err(FsError::InvalidData))
        } else if u64_at(d, off) == 0 {
            if rl >= req {
                Some(Ok(seq![(off, entry_seq(ino, rl as u16, name.len() as u8, file_type, u32_at(d, off + 12), name, rl))]))
            } else {
                add_scan(d, off + rl, req, name, ino, file_type)
            }
        } else {
            let nl = d[off + 10] as int;
            let cur = entry_size(nl);
            if rl < cur {
                None
            } else if rl - cur >= req {
                if off + 16 + nl > d.len() {
                    None
                } else {
                    Some(
                        Ok(
                            seq![
                                (off, entry_seq(u64_at(d, off), cur as u16, d[off + 10], d[off + 11], u32_at(d, off + 12), d.subrange(off + 16, off + 16 + nl), cur)),
                                (off + cur, entry_seq(ino, (rl - cur) as u16, name.len() as u8, file_type, 0, name, rl - cur)),
                            ],
                        ),
                    )
                }
            } else {
                add_scan(d, off + rl, req, name, ino, file_type)
            }
        }
    }
}

/// Where removing `name` from offset `off` of `d` finds it: the write that
/// frees its record and the inode number it held; `Some(None)` when no
/// used entry has that name. `None` where a used entry with a name of that
/// length runs past the end, or the record found is shorter than a header.
pub open spec fn remove_scan(d: Seq<u8>, off: int, name: Seq<u8>) -> Option<Option<(int, Seq<u8>, u64)>>
    decreases left(d, off),
{
    if off < 0 || off + 16 > d.len() || rec_len_at(d, off) == 0 {
        Some(None)
    } else {
        let rl = rec_len_at(d, off) as int;
        let nl = d[off + 10] as int;
        if u64_at(d, off) != 0 && nl == name.len() {
            if off + 16 + nl > d.len() {
                None
            } else if d.subrange(off + 16, off + 16 + nl) == name {
                if rl < 16 {
                    None
                } else {
                    Some(Some((off, entry_seq(0, rl as u16, d[off + 10], d[off + 11], u32_at(d, off + 12), Seq::empty(), rl), u64_at(d, off))))
                }
            } else {
                remove_scan(d, off + rl, name)
            }
        } else {
            remove_scan(d, off + rl, name)
        }
    }
}

/// `c1` and `i1` are `c0` and `i0` after the writes `ws`, in order, each as
/// `write_file` makes it.
pub open spec fn writes_done(
    c0: TxContext,
    i0: Inode,
    c1: TxContext,
    i1: Inode,
    bs: u64,
    total: int,
    csum_root: u64,
    ws: Seq<(int, Seq<u8>)>,
) -> bool
    decreases ws.len(),
{
    if ws.len() == 0 {
        c1 == c0 && i1 == i0
    } else {
        exists|cm: TxContext, im: Inode|
            #[trigger] write_done(c0, i0, cm, im, bs, total, csum_root, ws[0].0, ws[0].1) && writes_done(
                cm,
                im,
                c1,
                i1,
                bs,
                total,
                csum_root,
                ws.drop_first(),
            )
    }
}

/// `c1` and `i1` are `c0` and `i0` after `write_file` wrote `data` at
/// `offset`.
pub open spec fn write_done(
    c0: TxContext,
    i0: Inode,
    c1: TxContext,
    i1: Inode,
    bs: u64,
    total: int,
    csum_root: u64,
    offset: int,
    data: Seq<u8>,
) -> bool {
    &&& i1 == (Inode {
        extents: i1.extents,
        extent_count: i1.extent_count,
        size: if offset + data.len() > i0.size { (offset + data.len()) as u64 } else { i0.size },
        ..i0
    })
    &&& write_progress(c0, i0, c1, i1, bs, total, csum_root, offset as u64, data, data.len() as int)
}

/// How the entries of a directory read: inode number, name and file type.
pub open spec fn entries_view(v: Seq<DirEntry>) -> Seq<(u64, Seq<char>, u8)> {
    Seq::new(v.len(), |k: int| (v[k].ino, v[k].name@, v[k].file_type))
}

/// The entries `es` with their names read as UTF-8.
pub open spec fn entries_shown(es: Seq<(u64, Seq<u8>, u8)>) -> Seq<(u64, Seq<char>, u8)> {
    Seq::new(es.len(), |k: int| (es[k].0, utf8_lossy(es[k].1), es[k].2))
}

/// An entry of `total` bytes: the header, the name, then zeros.
fn entry_bytes(ino: u64, rec_len: u16, name_len: u8, file_type: u8, padding: u32, name: &[u8], total: usize) -> (r: Vec<u8>)
    requires
        16 + name@.len() <= total,
    ensures
        r@ == entry_seq(ino, rec_len, name_len, file_type, padding, name@, total as int),
        r@.len() == total,
{
    let mut out: Vec<u8> = Vec::new();
    put_u64(&mut out, ino);
    put_u16(&mut out, rec_len);
    put_u8(&mut out, name_len);
    put_u8(&mut out, file_type);
    put_u32(&mut out, padding);
    put_bytes(&mut out, name);
    put_zeros(&mut out, total - 16 - name.len());
    proof {
        assert(out@ =~= entry_seq(ino, rec_len, name_len, file_type, padding, name@, total as int));
        lemma_auto_spec_u64_to_from_le_bytes();
        lemma_auto_spec_u32_to_from_le_bytes();
        lemma_auto_spec_u16_to_from_le_bytes();
    }
    out
}

/// Every logical block that the writes `ws` touch is mapped in `inode`.
pub open spec fn writes_mapped(inode: Inode, ws: Seq<(int, Seq<u8>)>) -> bool {
    forall|k: int, l: int|
        0 <= k < ws.len() && #[trigger] in_write(ws[k].0 as u64, ws[k].1.len() as int, l) ==> phys_of(inode, l) != 0
}


/// The two byte strings are equal.
pub(crate) fn same_name(a: &[u8], b: &[u8]) -> (r: bool)
    ensures
        r == (a@ == b@),
{
    if a.len() != b.len() {
        return false;
    }
    let mut i: usize = 0;
    while i < a.len()
        invariant
            a@.len() == b@.len(),
            i <= a@.len(),
            forall|j: int| 0 <= j < i ==> a@[j] == b@[j],
        decreases a@.len() - i,
    {
        if a[i] != b[i] {
            return false;
        }
        i = i + 1;
    }
    assert(a@ =~= b@);
    true
}

pub struct DirManager;

impl DirManager {
    /// The used entries of the directory of `inode`, in the order they are
    /// stored, up to the first record length of 0 or the end; an entry
    /// whose name runs past the end is skipped. The contents are read with
    /// `read_file`, whose check of every block decides the error.
    pub fn read_entries(ctx: &mut TxContext, checksum_tree_root: u64, bad_blocks_root: u64, inode: &mut Inode) -> (r: Result<
        Vec<DirEntry>,
        FsError,
    >)
        requires
            crate::file::writer::extents_ok(*old(inode)),
            checksum_tree_root != 0 ==> crate::file::writer::checksum_tree_at(checksum_tree_root).inv(*old(ctx)),
            bad_blocks_root != 0 ==> bad_tree_at(bad_blocks_root).inv(*old(ctx)),
            old(inode).size <= usize::MAX,
        ensures
            *final(inode) == *old(inode),
            dir_verifies(*old(ctx), checksum_tree_root, *old(inode)) ==> {
                &&& r matches Ok(v) && entries_view(v@) == entries_shown(entries_from(dir_bytes(*old(ctx), *old(inode)), 0))
                &&& *final(ctx) == *old(ctx)
            },
            !dir_verifies(*old(ctx), checksum_tree_root, *old(inode)) ==> r == Err::<Vec<DirEntry>, FsError>(FsError::InvalidData),
    {
        let ghost c0 = *ctx;
        let ghost i0 = *inode;
        let size = inode.size;
        let data = match FileManager::read_file(ctx, checksum_tree_root, bad_blocks_root, inode, 0, size) {
            Ok(d) => d,
            Err(e) => {
                return Err(e);
            },
        };
        let ghost d = data@;
        proof {
            assert(d =~= dir_bytes(c0, i0));
        }
        let len = data.len();
        let mut entries: Vec<DirEntry> = Vec::new();
        let mut offset: usize = 0;
        while offset < len
            invariant
                len == d.len(),
                d == data@,
                offset <= len,
                entries_shown(entries_from(d, 0)) == entries_view(entries@) + entries_shown(entries_from(d, offset as int)),
            ensures
                entries_from(d, offset as int) == Seq::<(u64, Seq<u8>, u8)>::empty(),
            decreases len - offset,
        {
            if len - offset < 16 {
                break;
            }
            let rec_len = get_u16(data.as_slice(), offset + 8);
            if rec_len == 0 {
                break;
            }
            let ino = get_u64(data.as_slice(), offset);
            let ghost rest = entries_from(d, offset + rec_len);
            if ino != 0 {
                let name_len = data[offset + 10] as usize;
                let name_start = offset + 16;
                if name_len <= len - name_start {
                    let name_end = name_start + name_len;
                    let name = lossy_string(vstd::slice::slice_subrange(data.as_slice(), name_start, name_end));
                    let ghost before = entries@;
                    entries.push(DirEntry { ino, name, file_type: data[offset + 11] });
                    proof {
                        assert(entries_from(d, offset as int) == seq![(ino, d.subrange(name_start as int, name_end as int), d[offset + 11])] + rest);
                        assert(entries_view(entries@) =~= entries_view(before).push((ino, utf8_lossy(d.subrange(name_start as int, name_end as int)), d[offset + 11])));
                        assert(entries_shown(entries_from(d, offset as int)) =~= seq![(ino, utf8_lossy(d.subrange(name_start as int, name_end as int)), d[offset + 11])] + entries_shown(rest));
                    }
                }
            }
            if rec_len as usize >= len - offset {
                proof {
                    assert(rest =~= Seq::<(u64, Seq<u8>, u8)>::empty());
                    assert(entries_from(d, len as int) =~= Seq::<(u64, Seq<u8>, u8)>::empty());
                }
                offset = len;
            } else {
                offset = offset + rec_len as usize;
            }
        }
        proof {
            assert(entries_view(entries@) + entries_shown(Seq::empty()) =~= entries_view(entries@));
        }
        Ok(entries)
    }

    /// Frees the record of the used entry named `name` in the directory of
    /// `inode`, the first in order, and gives the inode number it held;
    /// `None` when there is none, up to the first record length of 0. The
    /// contents are read with `read_file` and written with `write_file`.
    #[verifier::rlimit(40)]
    pub fn remove_entry(
        ctx: &mut TxContext,
        bg_desc: &BlockGroupDescriptor,
        blocks_per_group: u32,
        checksum_tree_root: u64,
        bad_blocks_root: u64,
        inode: &mut Inode,
        name: &[u8],
    ) -> (r: Result<Option<u64>, FsError>)
        requires
            write_layout(*old(ctx), bg_desc.bg_block_bitmap, blocks_per_group as int, checksum_tree_root, *old(inode)),
            bad_blocks_root != 0 ==> bad_tree_at(bad_blocks_root).inv(*old(ctx)),
            old(inode).size <= usize::MAX,
            old(inode).size + 65536 <= u64::MAX,
            dir_verifies(*old(ctx), checksum_tree_root, *old(inode)) ==> remove_scan(dir_bytes(*old(ctx), *old(inode)), 0, name@) is Some,
        ensures
            !dir_verifies(*old(ctx), checksum_tree_root, *old(inode)) ==> r == Err::<Option<u64>, FsError>(FsError::InvalidData),
            dir_verifies(*old(ctx), checksum_tree_root, *old(inode)) ==> match remove_scan(dir_bytes(*old(ctx), *old(inode)), 0, name@) {
                Some(None) => r == Ok::<Option<u64>, FsError>(None) && *final(ctx) == *old(ctx) && *final(inode) == *old(inode),
                Some(Some((off, bytes, ino))) => {
                    &&& writes_mapped(*old(inode), seq![(off, bytes)]) ==> r is Ok
                    &&& r is Err ==> r == Err::<Option<u64>, FsError>(FsError::OutOfMemory)
                    &&& r is Ok ==> r == Ok::<Option<u64>, FsError>(Some(ino)) && writes_done(
                        *old(ctx),
                        *old(inode),
                        *final(ctx),
                        *final(inode),
                        bg_desc.bg_block_bitmap,
                        blocks_per_group as int,
                        checksum_tree_root,
                        seq![(off, bytes)],
                    )
                },
                None => true,
            },
    {
        let ghost c0 = *ctx;
        let ghost i0 = *inode;
        let ghost bs = bg_desc.bg_block_bitmap;
        let ghost total = blocks_per_group as int;
        let size = inode.size;
        let data = match FileManager::read_file(ctx, checksum_tree_root, bad_blocks_root, inode, 0, size) {
            Ok(d) => d,
            Err(e) => {
                return Err(e);
            },
        };
        let ghost d = data@;
        proof {
            assert(d =~= dir_bytes(c0, i0));
            assert(dir_verifies(c0, checksum_tree_root, i0));
        }
        let ghost plan = remove_scan(d, 0, name@);
        let len = data.len();
        let mut offset: usize = 0;
        while offset < len
            invariant
                *ctx == c0,
                *inode == i0,
                *old(ctx) == c0,
                *old(inode) == i0,
                len == d.len(),
                d == data@,
                d == dir_bytes(c0, i0),
                len == i0.size,
                dir_verifies(c0, checksum_tree_root, i0),
                plan == remove_scan(dir_bytes(c0, i0), 0, name@),
                i0.size + 65536 <= u64::MAX,
                bs == bg_desc.bg_block_bitmap,
                total == blocks_per_group as int,
                write_layout(c0, bs, total, checksum_tree_root, i0),
                offset <= len,
                plan == remove_scan(d, offset as int, name@),
                plan is Some,
            ensures
                plan == Some(None::<(int, Seq<u8>, u64)>),
            decreases len - offset,
        {
            if len - offset < 16 {
                break;
            }
            let rec_len = get_u16(data.as_slice(), offset + 8);
            if rec_len == 0 {
                break;
            }
            let ino = get_u64(data.as_slice(), offset);
            let nl = data[offset + 10] as usize;
            if ino != 0 && nl == name.len() {
                let name_start = offset + 16;
                let found = same_name(vstd::slice::slice_subrange(data.as_slice(), name_start, name_start + nl), name);
                if found {
                    let padding = get_u32(data.as_slice(), offset + 12);
                    let empty: Vec<u8> = Vec::new();
                    let bytes = entry_bytes(0, rec_len, data[offset + 10], data[offset + 11], padding, empty.as_slice(), rec_len as usize);
                    let res = FileManager::write_file(ctx, bg_desc, blocks_per_group, checksum_tree_root, inode, offset as u64, bytes.as_slice());
                    proof {
                        let ws = seq![(offset as int, bytes@)];
                        assert(plan == Some(Some((offset as int, bytes@, ino))));
                        if res is Ok {
                            assert(ws[0].0 == offset as int && ws[0].1 == bytes@);
                            assert(write_done(c0, i0, *ctx, *inode, bs, total, checksum_tree_root, ws[0].0, ws[0].1));
                            assert(ws.drop_first() =~= Seq::<(int, Seq<u8>)>::empty());
                            assert(writes_done(*ctx, *inode, *ctx, *inode, bs, total, checksum_tree_root, ws.drop_first()));
                            assert(writes_done(c0, i0, *ctx, *inode, bs, total, checksum_tree_root, ws));
                        }
                        if writes_mapped(i0, ws) {
                            assert forall|l: int| in_write(offset as u64, bytes@.len() as int, l) implies #[trigger] phys_of(i0, l) != 0 by {
                                assert(in_write(ws[0].0 as u64, ws[0].1.len() as int, l));
                            }
                        }
                    }
                    return match res {
                        Ok(()) => Ok(Some(ino)),
                        Err(e) => Err(e),
                    };
                }
            }
            proof {
                assert(plan == remove_scan(d, offset + rec_len, name@));
            }
            if rec_len as usize >= len - offset {
                proof {
                    assert(remove_scan(d, offset + rec_len, name@) == remove_scan(d, len as int, name@));
                }
                offset = len;
            } else {
                offset = offset + rec_len as usize;
            }
        }
        Ok(None)
    }

    /// Adds an entry for `name` (at most 255 bytes, else `InvalidInput`)
    /// pointing at `target_ino` to the directory of `inode`. It takes the
    /// first free record long enough for it, or splits the first used record
    /// with room for it after its own name, or else appends it at the end; a
    /// record length of 0 on the way is `InvalidData`. The contents are read
    /// with `read_file` and written with `write_file`.
    #[verifier::rlimit(40)]
    pub fn add_entry(
        ctx: &mut TxContext,
        bg_desc: &BlockGroupDescriptor,
        blocks_per_group: u32,
        checksum_tree_root: u64,
        bad_blocks_root: u64,
        inode: &mut Inode,
        name: &[u8],
        target_ino: u64,
        file_type: u8,
    ) -> (r: Result<(), FsError>)
        requires
            write_layout(*old(ctx), bg_desc.bg_block_bitmap, blocks_per_group as int, checksum_tree_root, *old(inode)),
            bad_blocks_root != 0 ==> bad_tree_at(bad_blocks_root).inv(*old(ctx)),
            old(inode).size <= usize::MAX,
            old(inode).size + 65536 <= u64::MAX,
            name@.len() <= 255 && dir_verifies(*old(ctx), checksum_tree_root, *old(inode)) ==> add_scan(
                dir_bytes(*old(ctx), *old(inode)),
                0,
                entry_size(name@.len() as int),
                name@,
                target_ino,
                file_type,
            ) is Some,
        ensures
            name@.len() > 255 ==> r == Err::<(), FsError>(FsError::InvalidInput) && *final(ctx) == *old(ctx) && *final(inode)
                == *old(inode),
            name@.len() <= 255 && !dir_verifies(*old(ctx), checksum_tree_root, *old(inode)) ==> r == Err::<(), FsError>(
                FsError::InvalidData,
            ),
            name@.len() <= 255 && dir_verifies(*old(ctx), checksum_tree_root, *old(inode)) ==> match add_scan(
                dir_bytes(*old(ctx), *old(inode)),
                0,
                entry_size(name@.len() as int),
                name@,
                target_ino,
                file_type,
            ) {
                Some(Err(e)) => r == Err::<(), FsError>(e) && *final(ctx) == *old(ctx) && *final(inode) == *old(inode),
                Some(Ok(ws)) => {
                    &&& writes_mapped(*old(inode), ws) ==> r is Ok
                    &&& r is Err ==> r == Err::<(), FsError>(FsError::OutOfMemory)
                    &&& r is Err ==> (forall|t: int|
                        !#[trigger] fits(*final(ctx), bg_desc.bg_block_bitmap, blocks_per_group as int, 1, t))
                        || final(inode).extent_count >= MAX_INLINE_EXTENTS
                    &&& r is Ok ==> writes_done(
                        *old(ctx),
                        *old(inode),
                        *final(ctx),
                        *final(inode),
                        bg_desc.bg_block_bitmap,
                        blocks_per_group as int,
                        checksum_tree_root,
                        ws,
                    )
                },
                None => true,
            },
    {
        if name.len() > 255 {
            return Err(FsError::InvalidInput);
        }
        let ghost c0 = *ctx;
        let ghost i0 = *inode;
        let ghost bs = bg_desc.bg_block_bitmap;
        let ghost total = blocks_per_group as int;
        let nl = name.len();
        let required = (16 + nl + 7) / 8 * 8;
        let size = inode.size;
        let data = match FileManager::read_file(ctx, checksum_tree_root, bad_blocks_root, inode, 0, size) {
            Ok(d) => d,
            Err(e) => {
                return Err(e);
            },
        };
        let ghost d = data@;
        proof {
            assert(d =~= dir_bytes(c0, i0));
            assert(dir_verifies(c0, checksum_tree_root, i0));
        }
        let ghost plan = add_scan(d, 0, required as int, name@, target_ino, file_type);
        assert(plan == add_scan(dir_bytes(c0, i0), 0, entry_size(name@.len() as int), name@, target_ino, file_type));
        let len = data.len();
        let mut offset: usize = 0;
        while offset < len
            invariant
                *ctx == c0,
                *inode == i0,
                *old(ctx) == c0,
                *old(inode) == i0,
                len == d.len(),
                d == data@,
                d == dir_bytes(c0, i0),
                len == i0.size,
                dir_verifies(c0, checksum_tree_root, i0),
                plan == add_scan(dir_bytes(c0, i0), 0, entry_size(name@.len() as int), name@, target_ino, file_type),
                i0.size + 65536 <= u64::MAX,
                bs == bg_desc.bg_block_bitmap,
                total == blocks_per_group as int,
                write_layout(c0, bs, total, checksum_tree_root, i0),
                nl == name@.len(),
                nl <= 255,
                required == entry_size(nl as int),
                offset <= len,
                plan == add_scan(d, offset as int, required as int, name@, target_ino, file_type),
                plan is Some,
            ensures
                plan == add_scan(d, offset as int, required as int, name@, target_ino, file_type),
                len - offset < 16,
            decreases len - offset,
        {
            if len - offset < 16 {
                break;
            }
            let rec_len = get_u16(data.as_slice(), offset + 8);
            if rec_len == 0 {
                proof {
                    assert(rec_len_at(d, offset as int) == 0);
                    assert(plan == Some(Err::<Seq<(int, Seq<u8>)>, FsError>(FsError::InvalidData)));
                }
                return Err(FsError::InvalidData);
            }
            let ino = get_u64(data.as_slice(), offset);
            if ino == 0 {
                if rec_len as usize >= required {
                    let padding = get_u32(data.as_slice(), offset + 12);
                    let bytes = entry_bytes(target_ino, rec_len, nl as u8, file_type, padding, name, rec_len as usize);
                    let res = FileManager::write_file(ctx, bg_desc, blocks_per_group, checksum_tree_root, inode, offset as u64, bytes.as_slice());
                    proof {
                        let ws = seq![(offset as int, bytes@)];
                        assert(plan == Some(Ok::<Seq<(int, Seq<u8>)>, FsError>(ws)));
                        if res is Ok {
                            assert(ws[0].0 == offset as int && ws[0].1 == bytes@);
                            assert(write_done(c0, i0, *ctx, *inode, bs, total, checksum_tree_root, ws[0].0, ws[0].1));
                            assert(ws.drop_first() =~= Seq::<(int, Seq<u8>)>::empty());
                            assert(writes_done(*ctx, *inode, *ctx, *inode, bs, total, checksum_tree_root, ws.drop_first()));
                            assert(writes_done(c0, i0, *ctx, *inode, bs, total, checksum_tree_root, ws));
                        }
                        if writes_mapped(i0, ws) {
                            assert forall|l: int| in_write(offset as u64, bytes@.len() as int, l) implies #[trigger] phys_of(i0, l) != 0 by {
                                assert(in_write(ws[0].0 as u64, ws[0].1.len() as int, l));
                            }
                        }
                    }
                    return res;
                }
            } else {
                let cur_nl = data[offset + 10];
                let cur_req = (16 + cur_nl as usize + 7) / 8 * 8;
                let remainder = rec_len as usize - cur_req;
                if remainder >= required {
                    let padding = get_u32(data.as_slice(), offset + 12);
                    let cur_name = vstd::slice::slice_subrange(data.as_slice(), offset + 16, offset + 16 + cur_nl as usize);
                    let cur_bytes = entry_bytes(ino, cur_req as u16, cur_nl, data[offset + 11], padding, cur_name, cur_req);
                    let ghost cm0 = *ctx;
                    let ghost im0 = *inode;
                    match FileManager::write_file(ctx, bg_desc, blocks_per_group, checksum_tree_root, inode, offset as u64, cur_bytes.as_slice()) {
                        Ok(()) => {},
                        Err(e) => {
                            proof {
                                let ws = seq![(offset as int, cur_bytes@), ((offset + cur_req) as int, Seq::<u8>::empty())];
                                if writes_mapped(i0, plan.unwrap().unwrap()) {
                                    assert forall|l: int| in_write(offset as u64, cur_bytes@.len() as int, l) implies #[trigger] phys_of(i0, l) != 0 by {
                                        assert(in_write(plan.unwrap().unwrap()[0].0 as u64, plan.unwrap().unwrap()[0].1.len() as int, l));
                                    }
                                }
                            }
                            return Err(e);
                        },
                    }
                    let ghost cm = *ctx;
                    let ghost im = *inode;
                    let new_bytes = entry_bytes(target_ino, remainder as u16, nl as u8, file_type, 0, name, remainder);
                    let res = FileManager::write_file(
                        ctx,
                        bg_desc,
                        blocks_per_group,
                        checksum_tree_root,
                        inode,
                        offset as u64 + cur_req as u64,
                        new_bytes.as_slice(),
                    );
                    proof {
                        let ws = seq![(offset as int, cur_bytes@), ((offset + cur_req) as int, new_bytes@)];
                        assert(plan == Some(Ok::<Seq<(int, Seq<u8>)>, FsError>(ws)));
                        assert(ws[0].0 == offset as int && ws[0].1 == cur_bytes@);
                        assert(write_done(c0, i0, cm, im, bs, total, checksum_tree_root, ws[0].0, ws[0].1));
                        if res is Ok {
                            let rest = ws.drop_first();
                            assert(rest[0] == ((offset + cur_req) as int, new_bytes@));
                            assert(write_done(cm, im, *ctx, *inode, bs, total, checksum_tree_root, rest[0].0, rest[0].1));
                            assert(rest.drop_first() =~= Seq::<(int, Seq<u8>)>::empty());
                            assert(writes_done(*ctx, *inode, *ctx, *inode, bs, total, checksum_tree_root, rest.drop_first()));
                            assert(writes_done(cm, im, *ctx, *inode, bs, total, checksum_tree_root, rest));
                            assert(writes_done(c0, i0, *ctx, *inode, bs, total, checksum_tree_root, ws));
                        }
                        if writes_mapped(i0, ws) {
                            assert forall|l: int| in_write((offset + cur_req) as u64, new_bytes@.len() as int, l) implies #[trigger] phys_of(im, l) != 0 by {
                                assert(in_write(ws[1].0 as u64, ws[1].1.len() as int, l));
                                assert(phys_of(i0, l) != 0);
                            }
                        }
                    }
                    return res;
                }
            }
            proof {
                assert(plan == add_scan(d, offset + rec_len, required as int, name@, target_ino, file_type));
            }
            if rec_len as usize >= len - offset {
                proof {
                    assert(add_scan(d, offset + rec_len, required as int, name@, target_ino, file_type) == add_scan(
                        d,
                        len as int,
                        required as int,
                        name@,
                        target_ino,
                        file_type,
                    ));
                }
                offset = len;
            } else {
                offset = offset + rec_len as usize;
            }
        }
        let bytes = entry_bytes(target_ino, required as u16, nl as u8, file_type, 0, name, required);
        let res = FileManager::write_file(ctx, bg_desc, blocks_per_group, checksum_tree_root, inode, size, bytes.as_slice());
        proof {
            let ws = seq![(size as int, bytes@)];
            assert(plan == Some(Ok::<Seq<(int, Seq<u8>)>, FsError>(ws)));
            if res is Ok {
                assert(ws[0].0 == size as int && ws[0].1 == bytes@);
                assert(write_done(c0, i0, *ctx, *inode, bs, total, checksum_tree_root, ws[0].0, ws[0].1));
                assert(ws.drop_first() =~= Seq::<(int, Seq<u8>)>::empty());
                assert(writes_done(*ctx, *inode, *ctx, *inode, bs, total, checksum_tree_root, ws.drop_first()));
                assert(writes_done(c0, i0, *ctx, *inode, bs, total, checksum_tree_root, ws));
            }
            if writes_mapped(i0, ws) {
                assert forall|l: int| in_write(size, bytes@.len() as int, l) implies #[trigger] phys_of(i0, l) != 0 by {
                    assert(in_write(ws[0].0 as u64, ws[0].1.len() as int, l));
                }
            }
        }
        res
    }
}

} // verus!
