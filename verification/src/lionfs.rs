//! The layout of the blocks of the mounted filesystem: the slots of an
//! indirect block, the entries of a directory block, and the checksums of
//! data blocks.
use crate::codec::{get_u32, get_u64, set_bytes, set_u32, set_u64, splice};
use crate::inode::{padded_len, u32_at, u64_at, DirEntry, INDIRECT_BLOCK_PTRS, PAYLOAD_SIZE};
use crate::recovery::{crc32, crc32_of};
use vstd::bytes::*;
use vstd::prelude::*;

verus! {

/// Directory entries that fit in one block.
pub const DIR_ENTRIES_PER_BLOCK: usize = 63;

/// The errors that requests are answered with.
#[derive(Debug, Clone, Copy, PartialEq, Eq, Structural)]
pub enum Errno {
    NoEntry,
    NoSpace,
    NameTooLong,
    FileTooBig,
    NotEmpty,
    Io,
}

/// The block pointer and checksum at index `i` of an indirect block.
pub fn indirect_get(payload: &[u8], i: usize) -> (r: (u32, u32))
    requires
        payload@.len() == PAYLOAD_SIZE,
        i < INDIRECT_BLOCK_PTRS,
    ensures
        r == (u32_at(payload@, 4 * i), u32_at(payload@, 2040 + 4 * i)),
{
    (get_u32(payload, 4 * i), get_u32(payload, 2040 + 4 * i))
}

/// Sets the block pointer at index `i` of an indirect block.
pub fn indirect_set_block(payload: &mut Vec<u8>, i: usize, block: u32)
    requires
        old(payload)@.len() == PAYLOAD_SIZE,
        i < INDIRECT_BLOCK_PTRS,
    ensures
        final(payload)@ == splice(old(payload)@, 4 * i, spec_u32_to_le_bytes(block)),
{
    set_u32(payload, 4 * i, block);
}

/// What `indirect_set_block` stores at index `i`, `indirect_get` reads back
/// there; every other pointer and every checksum stays as it was.
pub proof fn lemma_indirect_set_get(payload: Seq<u8>, i: int, block: u32, j: int)
    requires
        payload.len() == PAYLOAD_SIZE,
        0 <= i < INDIRECT_BLOCK_PTRS,
        0 <= j < INDIRECT_BLOCK_PTRS,
    ensures
        u32_at(splice(payload, 4 * i, spec_u32_to_le_bytes(block)), 4 * i) == block,
        j != i ==> u32_at(splice(payload, 4 * i, spec_u32_to_le_bytes(block)), 4 * j) == u32_at(payload, 4 * j),
        u32_at(splice(payload, 4 * i, spec_u32_to_le_bytes(block)), 2040 + 4 * j) == u32_at(payload, 2040 + 4 * j),
{
    lemma_auto_spec_u32_to_from_le_bytes();
    let p2 = splice(payload, 4 * i, spec_u32_to_le_bytes(block));
    assert(p2.subrange(4 * i, 4 * i + 4) =~= spec_u32_to_le_bytes(block));
    if j != i {
        assert(p2.subrange(4 * j, 4 * j + 4) =~= payload.subrange(4 * j, 4 * j + 4));
    }
    assert(p2.subrange(2040 + 4 * j, 2040 + 4 * j + 4) =~= payload.subrange(2040 + 4 * j, 2040 + 4 * j + 4));
}

/// Sets the checksum at index `i` of an indirect block.
pub fn indirect_set_checksum(payload: &mut Vec<u8>, i: usize, checksum: u32)
    requires
        old(payload)@.len() == PAYLOAD_SIZE,
        i < INDIRECT_BLOCK_PTRS,
    ensures
        final(payload)@ == splice(old(payload)@, 2040 + 4 * i, spec_u32_to_le_bytes(checksum)),
{
    set_u32(payload, 2040 + 4 * i, checksum);
}

/// `name` zero-padded to 56 bytes.
pub open spec fn name_field(name: Seq<u8>) -> Seq<u8> {
    name + Seq::new((56 - name.len()) as nat, |i: int| 0u8)
}

/// The name field of an entry for `name`; names over 56 bytes are refused.
pub fn encode_name(name: &[u8]) -> (r: Result<[u8; 56], Errno>)
    ensures
        name@.len() > 56 ==> r == Err::<[u8; 56], Errno>(Errno::NameTooLong),
        name@.len() <= 56 ==> (r matches Ok(f) && f@ == name_field(name@)),
{
    if name.len() > 56 {
        return Err(Errno::NameTooLong);
    }
    let n = name.len();
    let mut field = [0u8; 56];
    let mut i: usize = 0;
    while i < n
        invariant
            n == name@.len(),
            n <= 56,
            i <= n,
            forall|j: int| 0 <= j < i ==> #[trigger] field[j] == name@[j],
            forall|j: int| n <= j < 56 ==> #[trigger] field[j] == 0,
        decreases n - i,
    {
        field[i] = name[i];
        i = i + 1;
    }
    assert(field@ =~= name_field(name@));
    Ok(field)
}

/// The inode number in slot `s` of a directory block.
pub open spec fn slot_ino(payload: Seq<u8>, s: int) -> u64 {
    u64_at(payload, s * 64)
}

/// The name field of slot `s`.
pub open spec fn slot_field(payload: Seq<u8>, s: int) -> Seq<u8> {
    payload.subrange(s * 64 + 8, s * 64 + 64)
}

/// The name in slot `s`: its field up to the first zero byte.
pub open spec fn slot_name(payload: Seq<u8>, s: int) -> Seq<u8> {
    slot_field(payload, s).subrange(0, padded_len(slot_field(payload, s)))
}

/// The entries of the used slots of a directory block, in slot order.
pub open spec fn used_slots(payload: Seq<u8>, n: int) -> Seq<int>
    decreases n,
{
    if n <= 0 {
        Seq::empty()
    } else if slot_ino(payload, n - 1) != 0 {
        used_slots(payload, n - 1).push(n - 1)
    } else {
        used_slots(payload, n - 1)
    }
}

/// The entries of the used slots of a directory block, in slot order.
pub fn block_entries(payload: &[u8]) -> (r: Vec<DirEntry>)
    requires
        payload@.len() == PAYLOAD_SIZE,
    ensures
        r@.len() == used_slots(payload@, 63).len(),
        forall|k: int|
            0 <= k < r@.len() ==> #[trigger] r@[k].ino == slot_ino(payload@, used_slots(payload@, 63)[k])
                && r@[k].name@ == slot_field(payload@, used_slots(payload@, 63)[k]),
{
    let mut entries: Vec<DirEntry> = Vec::new();
    let mut i: usize = 0;
    while i < DIR_ENTRIES_PER_BLOCK
        invariant
            payload@.len() == PAYLOAD_SIZE,
            i <= 63,
            entries@.len() == used_slots(payload@, i as int).len(),
            forall|k: int|
                0 <= k < entries@.len() ==> #[trigger] entries@[k].ino == slot_ino(payload@, used_slots(payload@, i as int)[k])
                    && entries@[k].name@ == slot_field(payload@, used_slots(payload@, i as int)[k]),
        decreases 63 - i,
    {
        let entry = DirEntry::from_bytes(payload, i * 64);
        if entry.ino != 0 {
            entries.push(entry);
        }
        i = i + 1;
    }
    entries
}

/// The checksum kept for a data block: the CRC-32 of its payload.
pub fn payload_checksum(payload: &[u8]) -> (r: u32)
    ensures
        r == crc32_of(payload@),
{
    crc32(payload)
}

/// A block read back is intact: no checksum was recorded for it (0), or it
/// has the one recorded.
pub fn block_intact(payload: &[u8], expected: u32) -> (r: bool)
    ensures
        r == (expected == 0 || crc32_of(payload@) == expected),
{
    expected == 0 || crc32(payload) == expected
}

/// The first free slot (inode 0) of a directory block.
pub fn find_free_slot(payload: &[u8]) -> (r: Option<usize>)
    requires
        payload@.len() == PAYLOAD_SIZE,
    ensures
        match r {
            Some(s) => s < 63 && slot_ino(payload@, s as int) == 0 && forall|j: int|
                0 <= j < s ==> #[trigger] slot_ino(payload@, j) != 0,
            None => forall|j: int| 0 <= j < 63 ==> #[trigger] slot_ino(payload@, j) != 0,
        },
{
    let mut i: usize = 0;
    while i < DIR_ENTRIES_PER_BLOCK
        invariant
            payload@.len() == PAYLOAD_SIZE,
            i <= 63,
            forall|j: int| 0 <= j < i ==> #[trigger] slot_ino(payload@, j) != 0,
        decreases 63 - i,
    {
        if get_u64(payload, i * 64) == 0 {
            return Some(i);
        }
        i = i + 1;
    }
    None
}

/// The first used slot of a directory block named `name`, with its inode.
pub fn find_named_slot(payload: &[u8], name: &[u8]) -> (r: Option<(usize, u64)>)
    requires
        payload@.len() == PAYLOAD_SIZE,
    ensures
        match r {
            Some((s, ino)) => {
                &&& s < 63
                &&& ino == slot_ino(payload@, s as int)
                &&& ino != 0
                &&& slot_name(payload@, s as int) == name@
                &&& forall|j: int|
                    0 <= j < s ==> !(#[trigger] slot_ino(payload@, j) != 0 && slot_name(payload@, j) == name@)
            },
            None => forall|j: int|
                0 <= j < 63 ==> !(#[trigger] slot_ino(payload@, j) != 0 && slot_name(payload@, j) == name@),
        },
{
    let mut i: usize = 0;
    while i < DIR_ENTRIES_PER_BLOCK
        invariant
            payload@.len() == PAYLOAD_SIZE,
            i <= 63,
            forall|j: int| 0 <= j < i ==> !(#[trigger] slot_ino(payload@, j) != 0 && slot_name(payload@, j) == name@),
        decreases 63 - i,
    {
        let entry = DirEntry::from_bytes(payload, i * 64);
        if entry.ino != 0 {
            let len = entry.name_len();
            proof {
                crate::inode::lemma_padded_len(entry.name@);
            }
            let mut same = len == name.len();
            let mut k: usize = 0;
            while same && k < len
                invariant
                    len <= 56,
                    len == padded_len(entry.name@),
                    k <= len,
                    same ==> len == name@.len() && forall|j: int| 0 <= j < k ==> entry.name@[j] == name@[j],
                    !same ==> entry.name@.subrange(0, len as int) != name@,
                decreases len - k,
            {
                if entry.name[k] != name[k] {
                    same = false;
                    assert(entry.name@.subrange(0, len as int)[k as int] != name@[k as int]);
                }
                k = k + 1;
            }
            proof {
                crate::inode::lemma_padded_len(entry.name@);
                if same {
                    assert(entry.name@.subrange(0, len as int) =~= name@);
                }
            }
            if same {
                return Some((i, entry.ino));
            }
        }
        i = i + 1;
    }
    None
}

/// Stores `entry` in slot `slot` of a directory block.
pub fn write_slot(payload: &mut Vec<u8>, slot: usize, entry: &DirEntry)
    requires
        old(payload)@.len() == PAYLOAD_SIZE,
        slot < 63,
    ensures
        final(payload)@ == splice(old(payload)@, slot * 64, spec_u64_to_le_bytes(entry.ino) + entry.name@),
{
    let bytes = entry.to_bytes();
    set_bytes(payload, slot * 64, bytes.as_slice());
}

/// Frees slot `slot` of a directory block by setting its inode to 0; the
/// name stays.
pub fn clear_slot(payload: &mut Vec<u8>, slot: usize)
    requires
        old(payload)@.len() == PAYLOAD_SIZE,
        slot < 63,
    ensures
        final(payload)@ == splice(old(payload)@, slot * 64, spec_u64_to_le_bytes(0)),
{
    set_u64(payload, slot * 64, 0);
}

} // verus!
