//! Facts about the entries of the directories of the mounted filesystem:
//! how they follow the directory's blocks, and what storing one entry in a
//! free slot does to them.
use crate::codec::splice;
use crate::inode::{padded_len, u32_at, u64_at, DiskInode};
use crate::lionfs::{name_field, slot_field, slot_ino, slot_name, used_slots};
use crate::mount::{block_dir_entries, entry_bytes, entry_text, free_slot_from, named_slot_from, nonzero, slot_text, LionFS};
use vstd::bytes::*;
use vstd::prelude::*;
use vstd::utf8::valid_utf8;

verus! {

/// The nonzero words of two sequences are those of each, in order.
pub(crate) proof fn lemma_nonzero_concat(a: Seq<u32>, b: Seq<u32>)
    ensures
        nonzero(a + b) == nonzero(a) + nonzero(b),
    decreases b.len(),
{
    if b.len() == 0 {
        assert(a + b =~= a);
        assert(nonzero(a) + nonzero(b) =~= nonzero(a));
    } else {
        assert((a + b).drop_last() =~= a + b.drop_last());
        assert((a + b).last() == b.last());
        lemma_nonzero_concat(a, b.drop_last());
        if b.last() != 0 {
            assert(nonzero(a) + nonzero(b.drop_last()).push(b.last()) =~= (nonzero(a) + nonzero(b.drop_last())).push(
                b.last(),
            ));
        }
    }
}

/// The entries of two runs of blocks are those of each, in order.
pub(crate) proof fn lemma_entries_concat(fs: LionFS, a: Seq<u32>, b: Seq<u32>)
    ensures
        fs.entries_in(a + b) == fs.entries_in(a) + fs.entries_in(b),
    decreases b.len(),
{
    if b.len() == 0 {
        assert(a + b =~= a);
        assert(fs.entries_in(a) + fs.entries_in(b) =~= fs.entries_in(a));
    } else {
        assert((a + b).drop_last() =~= a + b.drop_last());
        assert((a + b).last() == b.last());
        lemma_entries_concat(fs, a, b.drop_last());
        assert(fs.entries_in(a) + (fs.entries_in(b.drop_last()) + block_dir_entries(fs.disk.block(b.last())))
            =~= fs.entries_in(a) + fs.entries_in(b.drop_last()) + block_dir_entries(fs.disk.block(b.last())));
    }
}

/// Blocks that read the same hold the same entries.
pub(crate) proof fn lemma_entries_frame(f1: LionFS, f2: LionFS, bs: Seq<u32>)
    requires
        forall|i: int| 0 <= i < bs.len() ==> f1.disk.block(#[trigger] bs[i]) == f2.disk.block(bs[i]),
    ensures
        f1.entries_in(bs) == f2.entries_in(bs),
    decreases bs.len(),
{
    if bs.len() > 0 {
        assert(f1.disk.block(bs[bs.len() - 1]) == f2.disk.block(bs[bs.len() - 1]));
        lemma_entries_frame(f1, f2, bs.drop_last());
    }
}

/// Storing an entry in slot `s` of a directory block leaves the other
/// slots as they were and puts the entry's inode and name in slot `s`.
pub(crate) proof fn lemma_slot_splice(p: Seq<u8>, s: int, ino: u64, field: Seq<u8>, t: int)
    requires
        p.len() == 4080,
        0 <= s < 63,
        0 <= t < 63,
        field.len() == 56,
    ensures
        ({
            let q = splice(p, s * 64, spec_u64_to_le_bytes(ino) + field);
            &&& q.len() == 4080
            &&& t != s ==> slot_ino(q, t) == slot_ino(p, t) && slot_field(q, t) == slot_field(p, t)
            &&& slot_ino(q, s) == ino
            &&& slot_field(q, s) == field
        }),
{
    lemma_auto_spec_u64_to_from_le_bytes();
    let e = spec_u64_to_le_bytes(ino) + field;
    let q = splice(p, s * 64, e);
    assert(q.subrange(s * 64, s * 64 + 8) =~= spec_u64_to_le_bytes(ino));
    assert(q.subrange(s * 64 + 8, s * 64 + 64) =~= field);
    if t != s {
        assert(q.subrange(t * 64, t * 64 + 8) =~= p.subrange(t * 64, t * 64 + 8));
        assert(q.subrange(t * 64 + 8, t * 64 + 64) =~= p.subrange(t * 64 + 8, t * 64 + 64));
    }
}

/// Storing a used entry in a free slot `s` adds `s` to the used slots, in
/// its place.
pub(crate) proof fn lemma_used_slots_splice(p: Seq<u8>, s: int, ino: u64, field: Seq<u8>, n: int)
    requires
        p.len() == 4080,
        0 <= s < 63,
        0 <= n <= 63,
        field.len() == 56,
        slot_ino(p, s) == 0,
        ino != 0,
    ensures
        ({
            let q = splice(p, s * 64, spec_u64_to_le_bytes(ino) + field);
            &&& n <= s ==> used_slots(q, n) == used_slots(p, n)
            &&& n > s ==> used_slots(q, n) == used_slots(p, n).insert(used_slots(p, s).len() as int, s)
        }),
    decreases n,
{
    let q = splice(p, s * 64, spec_u64_to_le_bytes(ino) + field);
    if n > 0 {
        lemma_used_slots_splice(p, s, ino, field, n - 1);
        lemma_slot_splice(p, s, ino, field, n - 1);
        lemma_used_slots_len(p, s);
        if n - 1 == s {
            assert(used_slots(p, n) == used_slots(p, s));
            assert(used_slots(q, n) =~= used_slots(p, s).push(s));
            assert(used_slots(p, s).insert(used_slots(p, s).len() as int, s) =~= used_slots(p, s).push(s));
        } else if n - 1 > s {
            lemma_used_slots_len(p, n - 1);
            lemma_used_slots_prefix_len(p, s, n - 1);
            let u = used_slots(p, n - 1);
            let j = used_slots(p, s).len() as int;
            if slot_ino(p, n - 1) != 0 {
                assert(u.insert(j, s).push(n - 1) =~= u.push(n - 1).insert(j, s));
            }
        }
    }
}

/// The used slots of the first `n` slots are at most `n`.
pub(crate) proof fn lemma_used_slots_len(p: Seq<u8>, n: int)
    ensures
        used_slots(p, n).len() <= if n < 0 {
            0
        } else {
            n
        },
    decreases n,
{
    if n > 0 {
        lemma_used_slots_len(p, n - 1);
    }
}

/// The used slots below `m` are no more than those below a larger `n`.
pub(crate) proof fn lemma_used_slots_prefix_len(p: Seq<u8>, m: int, n: int)
    requires
        0 <= m <= n,
    ensures
        used_slots(p, m).len() <= used_slots(p, n).len(),
    decreases n - m,
{
    if m < n {
        lemma_used_slots_prefix_len(p, m, n - 1);
    }
}

/// Storing a used entry in a free slot `s` of a directory block inserts
/// the entry among the block's entries, after those of the slots before
/// `s`.
pub(crate) proof fn lemma_block_entries_splice(p: Seq<u8>, s: int, ino: u64, field: Seq<u8>)
    requires
        p.len() == 4080,
        0 <= s < 63,
        field.len() == 56,
        slot_ino(p, s) == 0,
        ino != 0,
    ensures
        block_dir_entries(splice(p, s * 64, spec_u64_to_le_bytes(ino) + field)) == block_dir_entries(p).insert(
            used_slots(p, s).len() as int,
            (ino, field),
        ),
{
    let q = splice(p, s * 64, spec_u64_to_le_bytes(ino) + field);
    lemma_used_slots_splice(p, s, ino, field, 63);
    lemma_used_slots_len(p, s);
    lemma_used_slots_prefix_len(p, s, 63);
    let up = used_slots(p, 63);
    let uq = used_slots(q, 63);
    let j = used_slots(p, s).len() as int;
    lemma_used_slots_bounded(p, 63);
    assert(uq == up.insert(j, s));
    assert(uq.len() == up.len() + 1);
    let bp = block_dir_entries(p);
    let bi = bp.insert(j, (ino, field));
    assert(bi.len() == uq.len());
    assert forall|k: int| 0 <= k < uq.len() implies (slot_ino(q, uq[k]), slot_field(q, uq[k])) == block_dir_entries(
        p,
    ).insert(j, (ino, field))[k] by {
        if k < j {
            assert(uq[k] == up[k]);
            assert(bi[k] == bp[k]);
            lemma_used_slots_not(p, s, k);
            lemma_slot_splice(p, s, ino, field, up[k]);
        } else if k == j {
            assert(uq[k] == s);
            assert(bi[k] == (ino, field));
            lemma_slot_splice(p, s, ino, field, s);
        } else {
            assert(uq[k] == up[k - 1]);
            assert(bi[k] == bp[k - 1]);
            lemma_slot_splice(p, s, ino, field, up[k - 1]);
            lemma_used_slots_not(p, s, k - 1);
        }
    }
    assert(block_dir_entries(q) =~= block_dir_entries(p).insert(j, (ino, field)));
}

/// The used slots of the first `n` slots lie below `n`, in increasing
/// order.
pub(crate) proof fn lemma_used_slots_bounded(p: Seq<u8>, n: int)
    ensures
        forall|k: int| 0 <= k < used_slots(p, n).len() ==> 0 <= #[trigger] used_slots(p, n)[k] < n,
        forall|a: int, b: int|
            0 <= a < b < used_slots(p, n).len() ==> #[trigger] used_slots(p, n)[a] < #[trigger] used_slots(p, n)[b],
    decreases n,
{
    if n > 0 {
        lemma_used_slots_bounded(p, n - 1);
        let u = used_slots(p, n - 1);
        if slot_ino(p, n - 1) != 0 {
            assert(used_slots(p, n) == u.push(n - 1));
            assert forall|k: int| 0 <= k < used_slots(p, n).len() implies 0 <= #[trigger] used_slots(p, n)[k] < n by {
                if k < u.len() {
                    assert(used_slots(p, n)[k] == u[k]);
                }
            }
            assert forall|a: int, b: int|
                0 <= a < b < used_slots(p, n).len() implies #[trigger] used_slots(p, n)[a] < #[trigger] used_slots(
                p,
                n,
            )[b] by {
                assert(used_slots(p, n)[a] == u[a]);
                if b < u.len() {
                    assert(used_slots(p, n)[b] == u[b]);
                }
            }
        }
    }
}

/// A used slot counted past `s` is not `s` when `s` is free.
pub(crate) proof fn lemma_used_slots_not(p: Seq<u8>, s: int, k: int)
    requires
        0 <= s < 63,
        slot_ino(p, s) == 0,
        0 <= k < used_slots(p, 63).len(),
    ensures
        used_slots(p, 63)[k] != s,
{
    lemma_used_slots_used(p, 63);
}

/// Every slot listed as used is used.
pub(crate) proof fn lemma_used_slots_used(p: Seq<u8>, n: int)
    ensures
        forall|k: int| 0 <= k < used_slots(p, n).len() ==> slot_ino(p, #[trigger] used_slots(p, n)[k]) != 0,
    decreases n,
{
    if n > 0 {
        lemma_used_slots_used(p, n - 1);
        let u = used_slots(p, n - 1);
        if slot_ino(p, n - 1) != 0 {
            assert forall|k: int| 0 <= k < used_slots(p, n).len() implies slot_ino(p, #[trigger] used_slots(p, n)[k]) != 0 by {
                if k < u.len() {
                    assert(used_slots(p, n)[k] == u[k]);
                }
            }
        }
    }
}

/// A block of zeros but for one used entry in slot 0 holds that entry
/// alone.
pub(crate) proof fn lemma_block_entries_single(ino: u64, field: Seq<u8>)
    requires
        field.len() == 56,
        ino != 0,
    ensures
        block_dir_entries(splice(Seq::new(4080, |i: int| 0u8), 0, spec_u64_to_le_bytes(ino) + field)) == seq![
            (ino, field),
        ],
{
    let z = Seq::new(4080nat, |i: int| 0u8);
    lemma_zero_slots_unused(z, 63);
    lemma_block_entries_splice(z, 0, ino, field);
    assert(used_slots(z, 0) =~= Seq::<int>::empty());
    assert(block_dir_entries(z) =~= Seq::<(u64, Seq<u8>)>::empty());
    assert(Seq::<(u64, Seq<u8>)>::empty().insert(0, (ino, field)) =~= seq![(ino, field)]);
}

/// No slot of a block of zeros is used.
pub(crate) proof fn lemma_zero_slots_unused(z: Seq<u8>, n: int)
    requires
        z == Seq::new(4080nat, |i: int| 0u8),
        n <= 63,
    ensures
        used_slots(z, n) == Seq::<int>::empty(),
        forall|t: int| 0 <= t < 63 ==> #[trigger] slot_ino(z, t) == 0,
    decreases n,
{
    assert forall|t: int| 0 <= t < 63 implies #[trigger] slot_ino(z, t) == 0 by {
        lemma_zero_u64_at(z, t * 64);
    }
    if n > 0 {
        lemma_zero_slots_unused(z, n - 1);
    }
}

/// Eight zero bytes read as 0.
pub(crate) proof fn lemma_zero_u64_at(z: Seq<u8>, off: int)
    requires
        0 <= off,
        off + 8 <= z.len(),
        forall|i: int| 0 <= i < z.len() ==> z[i] == 0,
    ensures
        u64_at(z, off) == 0,
{
    lemma_auto_spec_u64_to_from_le_bytes();
    spec_u64_to_le_bytes_to_open(0);
    assert(spec_u64_to_le_bytes_open(0) =~= z.subrange(off, off + 8)) by {
        assert((0u64 & 0xff) == 0 && ((0u64 >> 8) & 0xff) == 0 && ((0u64 >> 16) & 0xff) == 0 && ((0u64 >> 24) & 0xff)
            == 0 && ((0u64 >> 32) & 0xff) == 0 && ((0u64 >> 40) & 0xff) == 0 && ((0u64 >> 48) & 0xff) == 0 && ((0u64
            >> 56) & 0xff) == 0) by (bit_vector);
    }
}

/// A name of valid UTF-8 without zero bytes reads back from its padded
/// field.
pub(crate) proof fn lemma_entry_text_field(name: Seq<u8>)
    requires
        name.len() <= 56,
        valid_utf8(name),
        forall|i: int| 0 <= i < name.len() ==> name[i] != 0,
    ensures
        entry_text(name_field(name)) == name,
{
    let f = name_field(name);
    lemma_padded_len_prefix(f, name.len() as int);
    assert(f.subrange(0, name.len() as int) =~= name);
}

/// The padded length of a field whose first `n` bytes are nonzero and
/// whose byte `n` (if any) is zero is `n`.
pub(crate) proof fn lemma_padded_len_prefix(f: Seq<u8>, n: int)
    requires
        0 <= n <= f.len(),
        forall|i: int| 0 <= i < n ==> f[i] != 0,
        n < f.len() ==> f[n] == 0,
    ensures
        padded_len(f) == n,
    decreases n,
{
    if n > 0 {
        assert forall|i: int| 0 <= i < n - 1 implies f.drop_first()[i] != 0 by {
            assert(f.drop_first()[i] == f[i + 1]);
        }
        if n < f.len() {
            assert(f.drop_first()[n - 1] == f[n]);
        }
        lemma_padded_len_prefix(f.drop_first(), n - 1);
    }
}

/// A lookup of `name` among entries none of which has that name, with one
/// entry of that name for an existing inode `t` inserted, finds `t`.
pub(crate) proof fn lemma_first_hit_insert(
    fs: LionFS,
    es: Seq<(u64, Seq<u8>)>,
    j: int,
    t: u64,
    field: Seq<u8>,
    name: Seq<u8>,
    k: int,
)
    requires
        0 <= j <= es.len(),
        0 <= k <= j,
        forall|i: int| 0 <= i < es.len() ==> entry_text(#[trigger] es[i].1) != name,
        entry_text(field) == name,
        fs.has_inode(t),
    ensures
        fs.first_hit(es.insert(j, (t, field)), name, k) == Some(t),
    decreases j - k,
{
    let e = es.insert(j, (t, field));
    if k < j {
        assert(e[k] == es[k]);
        lemma_first_hit_insert(fs, es, j, t, field, name, k + 1);
    } else {
        assert(e[k] == (t, field));
    }
}

/// Every word of `nonzero(s)` is a nonzero word of `s`.
pub(crate) proof fn lemma_nonzero_member(s: Seq<u32>)
    ensures
        forall|i: int|
            0 <= i < nonzero(s).len() ==> #[trigger] nonzero(s)[i] != 0 && exists|j: int|
                0 <= j < s.len() && s[j] == nonzero(s)[i],
    decreases s.len(),
{
    if s.len() > 0 {
        let p = s.drop_last();
        lemma_nonzero_member(p);
        assert forall|i: int| 0 <= i < nonzero(s).len() implies #[trigger] nonzero(s)[i] != 0 && exists|j: int|
            0 <= j < s.len() && s[j] == nonzero(s)[i] by {
            if i < nonzero(p).len() {
                assert(nonzero(s)[i] == nonzero(p)[i]);
                let j = choose|j: int| 0 <= j < p.len() && p[j] == nonzero(p)[i];
                assert(s[j] == p[j]);
            } else {
                assert(nonzero(s)[i] == s.last());
                assert(s[s.len() - 1] == s.last());
            }
        }
    }
}

/// The entries of the blocks `bs` are the same in two states that agree
/// on every block that is a nonzero word of `ws`, when `bs` is `nonzero(ws)`.
pub(crate) proof fn lemma_entries_frame_nonzero(f1: LionFS, f2: LionFS, ws: Seq<u32>)
    requires
        forall|i: int| 0 <= i < ws.len() && #[trigger] ws[i] != 0 ==> f1.disk.block(ws[i]) == f2.disk.block(ws[i]),
    ensures
        f1.entries_in(nonzero(ws)) == f2.entries_in(nonzero(ws)),
{
    lemma_nonzero_member(ws);
    assert forall|i: int| 0 <= i < nonzero(ws).len() implies f1.disk.block(#[trigger] nonzero(ws)[i]) == f2.disk.block(
        nonzero(ws)[i],
    ) by {
        let j = choose|j: int| 0 <= j < ws.len() && ws[j] == nonzero(ws)[i];
        assert(ws[j] != 0);
    }
    lemma_entries_frame(f1, f2, nonzero(ws));
}

/// A run of one block: its word if nonzero, and the entries of that block.
pub(crate) proof fn lemma_single_block(fs: LionFS, b: u32)
    ensures
        nonzero(seq![b]) == if b != 0 {
            seq![b]
        } else {
            Seq::<u32>::empty()
        },
        fs.entries_in(seq![b]) == block_dir_entries(fs.disk.block(b)),
{
    let s = seq![b];
    assert(s.len() == 1);
    assert(s.last() == b);
    assert(s.drop_last() =~= Seq::<u32>::empty());
    assert(nonzero(Seq::<u32>::empty()) == Seq::<u32>::empty());
    assert(fs.entries_in(Seq::<u32>::empty()) == Seq::<(u64, Seq<u8>)>::empty());
    assert(Seq::<(u64, Seq<u8>)>::empty() + block_dir_entries(fs.disk.block(b)) =~= block_dir_entries(
        fs.disk.block(b),
    ));
    if b != 0 {
        assert(Seq::<u32>::empty().push(b) =~= seq![b]);
    }
}

/// Storing an entry in free slot `s` of direct block `k` of directory `d`
/// inserts the entry among the directory's entries.
#[verifier::rlimit(40)]
pub(crate) proof fn lemma_add_slot_entries(f0: LionFS, f1: LionFS, d: DiskInode, k: int, s: int, ino: u64, field: Seq<u8>)
    requires
        d.indirect_block == 0,
        0 <= k < 12,
        d.direct_blocks[k] != 0,
        0 <= s < 63,
        slot_ino(f0.disk.block(d.direct_blocks[k]), s) == 0,
        ino != 0,
        field.len() == 56,
        f1.disk.block(d.direct_blocks[k]) == splice(
            f0.disk.block(d.direct_blocks[k]),
            s * 64,
            spec_u64_to_le_bytes(ino) + field,
        ),
        forall|i: int|
            0 <= i < 12 && i != k && #[trigger] d.direct_blocks[i] != 0 ==> d.direct_blocks[i] != d.direct_blocks[k]
                && f1.disk.block(d.direct_blocks[i]) == f0.disk.block(d.direct_blocks[i]),
    ensures
        exists|j: int|
            0 <= j <= f0.dir_entries(d).len() && f1.dir_entries(d) == f0.dir_entries(d).insert(j, (ino, field)),
{
    let dd = d.direct_blocks@;
    let b = dd[k];
    let a = dd.subrange(0, k);
    let c = dd.subrange(k + 1, 12);
    assert(dd =~= a + seq![b] + c);
    lemma_nonzero_concat(a + seq![b], c);
    lemma_nonzero_concat(a, seq![b]);
    lemma_single_block(f0, b);
    lemma_single_block(f1, b);
    let na = nonzero(a);
    let nc = nonzero(c);
    assert(f0.dir_blocks(d) =~= na + seq![b] + nc);
    assert(f1.dir_blocks(d) =~= na + seq![b] + nc);
    lemma_entries_concat(f0, na + seq![b], nc);
    lemma_entries_concat(f0, na, seq![b]);
    lemma_entries_concat(f1, na + seq![b], nc);
    lemma_entries_concat(f1, na, seq![b]);
    assert forall|i: int| 0 <= i < a.len() && #[trigger] a[i] != 0 implies f0.disk.block(a[i]) == f1.disk.block(a[i]) by {
        assert(a[i] == dd[i]);
    }
    assert forall|i: int| 0 <= i < c.len() && #[trigger] c[i] != 0 implies f0.disk.block(c[i]) == f1.disk.block(c[i]) by {
        assert(c[i] == dd[k + 1 + i]);
    }
    lemma_entries_frame_nonzero(f0, f1, a);
    lemma_entries_frame_nonzero(f0, f1, c);
    f0.disk.store.lemma_payload_len(b);
    lemma_block_entries_splice(f0.disk.block(b), s, ino, field);
    let ea = f0.entries_in(na);
    let ec = f0.entries_in(nc);
    let eb = block_dir_entries(f0.disk.block(b));
    let j = (ea.len() + used_slots(f0.disk.block(b), s).len()) as int;
    lemma_used_slots_len(f0.disk.block(b), s);
    lemma_used_slots_prefix_len(f0.disk.block(b), s, 63);
    assert(ea + eb.insert(used_slots(f0.disk.block(b), s).len() as int, (ino, field)) + ec =~= (ea + eb + ec).insert(
        j,
        (ino, field),
    ));
    assert(f1.dir_entries(d) == f0.dir_entries(d).insert(j, (ino, field)));
}

/// Putting a new block holding one entry at the empty direct index `k` of
/// directory `d` inserts the entry among the directory's entries.
#[verifier::rlimit(40)]
pub(crate) proof fn lemma_add_block_entries(
    f0: LionFS,
    f1: LionFS,
    d: DiskInode,
    d1: DiskInode,
    k: int,
    ino: u64,
    field: Seq<u8>,
)
    requires
        d.indirect_block == 0,
        d1.indirect_block == 0,
        0 <= k < 12,
        d.direct_blocks[k] == 0,
        d1.direct_blocks@ == d.direct_blocks@.update(k, d1.direct_blocks[k]),
        d1.direct_blocks[k] != 0,
        ino != 0,
        field.len() == 56,
        f1.disk.block(d1.direct_blocks[k]) == splice(
            Seq::new(4080nat, |i: int| 0u8),
            0,
            spec_u64_to_le_bytes(ino) + field,
        ),
        forall|i: int|
            0 <= i < 12 && #[trigger] d.direct_blocks[i] != 0 ==> f1.disk.block(d.direct_blocks[i]) == f0.disk.block(
                d.direct_blocks[i],
            ),
    ensures
        exists|j: int|
            0 <= j <= f0.dir_entries(d).len() && f1.dir_entries(d1) == f0.dir_entries(d).insert(j, (ino, field)),
{
    let dd = d.direct_blocks@;
    let d1d = d1.direct_blocks@;
    let b = d1d[k];
    let a = dd.subrange(0, k);
    let c = dd.subrange(k + 1, 12);
    assert(dd =~= a + seq![0u32] + c);
    assert(d1d =~= a + seq![b] + c);
    lemma_nonzero_concat(a + seq![0u32], c);
    lemma_nonzero_concat(a, seq![0u32]);
    lemma_nonzero_concat(a + seq![b], c);
    lemma_nonzero_concat(a, seq![b]);
    lemma_single_block(f1, b);
    lemma_single_block(f1, 0u32);
    let na = nonzero(a);
    let nc = nonzero(c);
    assert(f0.dir_blocks(d) =~= na + nc);
    assert(f1.dir_blocks(d1) =~= na + seq![b] + nc);
    lemma_entries_concat(f0, na, nc);
    lemma_entries_concat(f1, na + seq![b], nc);
    lemma_entries_concat(f1, na, seq![b]);
    assert forall|i: int| 0 <= i < a.len() && #[trigger] a[i] != 0 implies f0.disk.block(a[i]) == f1.disk.block(a[i]) by {
        assert(a[i] == dd[i]);
    }
    assert forall|i: int| 0 <= i < c.len() && #[trigger] c[i] != 0 implies f0.disk.block(c[i]) == f1.disk.block(c[i]) by {
        assert(c[i] == dd[k + 1 + i]);
    }
    lemma_entries_frame_nonzero(f0, f1, a);
    lemma_entries_frame_nonzero(f0, f1, c);
    lemma_block_entries_single(ino, field);
    let ea = f0.entries_in(na);
    let ec = f0.entries_in(nc);
    assert(ea + seq![(ino, field)] + ec =~= (ea + ec).insert(ea.len() as int, (ino, field)));
    assert(f1.dir_entries(d1) == f0.dir_entries(d).insert(ea.len() as int, (ino, field)));
}

/// The free slot that `free_slot_from` finds is a slot of the block.
pub(crate) proof fn lemma_free_slot_bound(p: Seq<u8>, k: int)
    ensures
        free_slot_from(p, k) matches Some(s) ==> k <= s < 63,
    decreases 63 - k,
{
    if 0 <= k < 63 && slot_ino(p, k) != 0 {
        lemma_free_slot_bound(p, k + 1);
    }
}

/// Freeing slot `s` of a directory block (its inode set to 0) leaves the
/// other slots as they were.
pub(crate) proof fn lemma_slot_clear(p: Seq<u8>, s: int, t: int)
    requires
        p.len() == 4080,
        0 <= s < 63,
        0 <= t < 63,
    ensures
        ({
            let q = splice(p, s * 64, spec_u64_to_le_bytes(0));
            &&& q.len() == 4080
            &&& t != s ==> slot_ino(q, t) == slot_ino(p, t) && slot_field(q, t) == slot_field(p, t)
            &&& slot_ino(q, s) == 0
        }),
{
    lemma_auto_spec_u64_to_from_le_bytes();
    let q = splice(p, s * 64, spec_u64_to_le_bytes(0));
    assert(q.subrange(s * 64, s * 64 + 8) =~= spec_u64_to_le_bytes(0));
    if t != s {
        assert(q.subrange(t * 64, t * 64 + 8) =~= p.subrange(t * 64, t * 64 + 8));
        assert(q.subrange(t * 64 + 8, t * 64 + 64) =~= p.subrange(t * 64 + 8, t * 64 + 64));
    }
}

/// Freeing a used slot `s` drops it from the used slots.
pub(crate) proof fn lemma_used_slots_clear(p: Seq<u8>, s: int, n: int)
    requires
        p.len() == 4080,
        0 <= s < 63,
        0 <= n <= 63,
        slot_ino(p, s) != 0,
    ensures
        ({
            let q = splice(p, s * 64, spec_u64_to_le_bytes(0));
            &&& n <= s ==> used_slots(q, n) == used_slots(p, n)
            &&& n > s ==> used_slots(q, n) == used_slots(p, n).remove(used_slots(p, s).len() as int)
        }),
    decreases n,
{
    let q = splice(p, s * 64, spec_u64_to_le_bytes(0));
    if n > 0 {
        lemma_used_slots_clear(p, s, n - 1);
        lemma_slot_clear(p, s, n - 1);
        lemma_used_slots_len(p, s);
        if n - 1 == s {
            assert(used_slots(p, n) == used_slots(p, s).push(s));
            assert(used_slots(p, s).push(s).remove(used_slots(p, s).len() as int) =~= used_slots(p, s));
        } else if n - 1 > s {
            lemma_used_slots_prefix_len(p, s + 1, n - 1);
            assert(used_slots(p, s + 1) == used_slots(p, s).push(s));
            let u = used_slots(p, n - 1);
            let j = used_slots(p, s).len() as int;
            if slot_ino(p, n - 1) != 0 {
                assert(u.remove(j).push(n - 1) =~= u.push(n - 1).remove(j));
            }
        }
    }
}

/// Freeing a used slot `s` of a directory block drops its entry from the
/// block's entries.
pub(crate) proof fn lemma_block_entries_clear(p: Seq<u8>, s: int)
    requires
        p.len() == 4080,
        0 <= s < 63,
        slot_ino(p, s) != 0,
    ensures
        ({
            let j = used_slots(p, s).len() as int;
            &&& 0 <= j < block_dir_entries(p).len()
            &&& block_dir_entries(p)[j] == (slot_ino(p, s), slot_field(p, s))
            &&& block_dir_entries(splice(p, s * 64, spec_u64_to_le_bytes(0))) == block_dir_entries(p).remove(j)
        }),
{
    let q = splice(p, s * 64, spec_u64_to_le_bytes(0));
    lemma_used_slots_clear(p, s, 63);
    lemma_used_slots_len(p, s);
    lemma_used_slots_prefix_len(p, s + 1, 63);
    assert(used_slots(p, s + 1) == used_slots(p, s).push(s));
    lemma_used_slots_keep(p, s + 1, 63);
    let up = used_slots(p, 63);
    let uq = used_slots(q, 63);
    let j = used_slots(p, s).len() as int;
    assert(up[j] == used_slots(p, s + 1)[j]);
    assert(up[j] == s);
    lemma_used_slots_bounded(p, 63);
    let bp = block_dir_entries(p);
    let br = bp.remove(j);
    assert(uq == up.remove(j));
    assert forall|k: int| 0 <= k < uq.len() implies (slot_ino(q, uq[k]), slot_field(q, uq[k])) == br[k] by {
        if k < j {
            assert(uq[k] == up[k]);
            assert(br[k] == bp[k]);
            assert(up[k] < up[j]);
            lemma_slot_clear(p, s, up[k]);
        } else {
            assert(uq[k] == up[k + 1]);
            assert(br[k] == bp[k + 1]);
            assert(up[j] < up[k + 1]);
            lemma_slot_clear(p, s, up[k + 1]);
        }
    }
    assert(block_dir_entries(q) =~= br);
}

/// The used slots below `m` begin the used slots below a larger `n`.
pub(crate) proof fn lemma_used_slots_keep(p: Seq<u8>, m: int, n: int)
    requires
        0 <= m <= n,
    ensures
        used_slots(p, m).len() <= used_slots(p, n).len(),
        forall|k: int| 0 <= k < used_slots(p, m).len() ==> #[trigger] used_slots(p, n)[k] == used_slots(p, m)[k],
    decreases n - m,
{
    if m < n {
        lemma_used_slots_keep(p, m, n - 1);
    }
}

/// Freeing the used slot `s` of direct block `k` of directory `d` drops
/// its entry from the directory's entries.
#[verifier::rlimit(40)]
pub(crate) proof fn lemma_remove_slot_entries(f0: LionFS, f1: LionFS, d: DiskInode, k: int, s: int)
    requires
        d.indirect_block == 0,
        0 <= k < 12,
        d.direct_blocks[k] != 0,
        0 <= s < 63,
        slot_ino(f0.disk.block(d.direct_blocks[k]), s) != 0,
        f1.disk.block(d.direct_blocks[k]) == splice(f0.disk.block(d.direct_blocks[k]), s * 64, spec_u64_to_le_bytes(0)),
        forall|i: int|
            0 <= i < 12 && i != k && #[trigger] d.direct_blocks[i] != 0 ==> d.direct_blocks[i] != d.direct_blocks[k]
                && f1.disk.block(d.direct_blocks[i]) == f0.disk.block(d.direct_blocks[i]),
    ensures
        exists|j: int|
            0 <= j < f0.dir_entries(d).len() && f0.dir_entries(d)[j] == (
                slot_ino(f0.disk.block(d.direct_blocks[k]), s),
                slot_field(f0.disk.block(d.direct_blocks[k]), s),
            ) && f1.dir_entries(d) == f0.dir_entries(d).remove(j),
{
    let dd = d.direct_blocks@;
    let b = dd[k];
    let a = dd.subrange(0, k);
    let c = dd.subrange(k + 1, 12);
    assert(dd =~= a + seq![b] + c);
    lemma_nonzero_concat(a + seq![b], c);
    lemma_nonzero_concat(a, seq![b]);
    lemma_single_block(f0, b);
    lemma_single_block(f1, b);
    let na = nonzero(a);
    let nc = nonzero(c);
    assert(f0.dir_blocks(d) =~= na + seq![b] + nc);
    assert(f1.dir_blocks(d) =~= na + seq![b] + nc);
    lemma_entries_concat(f0, na + seq![b], nc);
    lemma_entries_concat(f0, na, seq![b]);
    lemma_entries_concat(f1, na + seq![b], nc);
    lemma_entries_concat(f1, na, seq![b]);
    assert forall|i: int| 0 <= i < a.len() && #[trigger] a[i] != 0 implies f0.disk.block(a[i]) == f1.disk.block(a[i]) by {
        assert(a[i] == dd[i]);
    }
    assert forall|i: int| 0 <= i < c.len() && #[trigger] c[i] != 0 implies f0.disk.block(c[i]) == f1.disk.block(c[i]) by {
        assert(c[i] == dd[k + 1 + i]);
    }
    lemma_entries_frame_nonzero(f0, f1, a);
    lemma_entries_frame_nonzero(f0, f1, c);
    f0.disk.store.lemma_payload_len(b);
    lemma_block_entries_clear(f0.disk.block(b), s);
    let ea = f0.entries_in(na);
    let ec = f0.entries_in(nc);
    let eb = block_dir_entries(f0.disk.block(b));
    let jb = used_slots(f0.disk.block(b), s).len() as int;
    let j = ea.len() + jb;
    assert(ea + eb.remove(jb) + ec =~= (ea + eb + ec).remove(j));
    assert((ea + eb + ec)[j] == eb[jb]);
    assert(f1.dir_entries(d) == f0.dir_entries(d).remove(j));
}

/// The used slot that `named_slot_from` finds is a slot of the block.
pub(crate) proof fn lemma_named_slot_bound(p: Seq<u8>, name: Seq<u8>, k: int)
    ensures
        named_slot_from(p, name, k) matches Some(s) ==> k <= s < 63,
    decreases 63 - k,
{
    if 0 <= k < 63 && !(slot_ino(p, k) != 0 && slot_name(p, k) == name) {
        lemma_named_slot_bound(p, name, k + 1);
    }
}

/// A block in which every free slot stays free keeps having a free slot.
pub(crate) proof fn lemma_free_slot_kept(p: Seq<u8>, q: Seq<u8>, k: int)
    requires
        forall|t: int| 0 <= t < 63 && slot_ino(p, t) == 0 ==> #[trigger] slot_ino(q, t) == 0,
    ensures
        free_slot_from(p, k) is Some ==> free_slot_from(q, k) is Some,
    decreases 63 - k,
{
    if 0 <= k < 63 {
        if slot_ino(p, k) != 0 {
            lemma_free_slot_kept(p, q, k + 1);
        } else {
            assert(slot_ino(q, k) == 0);
        }
    }
}

/// Setting a checksum of an indirect block keeps every block pointer.
pub(crate) proof fn lemma_sum_set_keeps_ptr(p: Seq<u8>, i: int, c: u32, j: int)
    requires
        p.len() == 4080,
        0 <= i < 510,
        0 <= j < 510,
    ensures
        u32_at(splice(p, 2040 + 4 * i, spec_u32_to_le_bytes(c)), 4 * j) == u32_at(p, 4 * j),
{
    lemma_auto_spec_u32_to_from_le_bytes();
    let q = splice(p, 2040 + 4 * i, spec_u32_to_le_bytes(c));
    assert(q.subrange(4 * j, 4 * j + 4) =~= p.subrange(4 * j, 4 * j + 4));
}


/// No used slot from `k` on carries `name` when none is found from `k`.
pub(crate) proof fn lemma_named_slot_none(p: Seq<u8>, name: Seq<u8>, k: int)
    requires
        0 <= k,
        named_slot_from(p, name, k) is None,
    ensures
        forall|s: int| k <= s < 63 ==> !(#[trigger] slot_ino(p, s) != 0 && slot_name(p, s) == name),
    decreases 63 - k,
{
    if k < 63 {
        lemma_named_slot_none(p, name, k + 1);
    }
}

/// No entry of the blocks `bs` carries `name` when no block of them has a
/// used slot with that name.
pub(crate) proof fn lemma_entries_unnamed(fs: LionFS, bs: Seq<u32>, name: Seq<u8>)
    requires
        forall|m: int| 0 <= m < bs.len() ==> named_slot_from(fs.disk.block(#[trigger] bs[m]), name, 0) is None,
    ensures
        forall|i: int| 0 <= i < fs.entries_in(bs).len() ==> slot_text(#[trigger] fs.entries_in(bs)[i].1) != name,
    decreases bs.len(),
{
    if bs.len() > 0 {
        let a = bs.drop_last();
        lemma_entries_unnamed(fs, a, name);
        let p = fs.disk.block(bs.last());
        assert(named_slot_from(p, name, 0) is None) by {
            assert(bs[bs.len() - 1] == bs.last());
        }
        lemma_named_slot_none(p, name, 0);
        lemma_used_slots_bounded(p, 63);
        lemma_used_slots_used(p, 63);
        let e = fs.entries_in(bs);
        let ea = fs.entries_in(a);
        assert forall|i: int| 0 <= i < e.len() implies slot_text(#[trigger] e[i].1) != name by {
            if i < ea.len() {
                assert(e[i] == ea[i]);
            } else {
                let q = i - ea.len();
                let u = used_slots(p, 63)[q];
                assert(e[i] == block_dir_entries(p)[q]);
                assert(slot_ino(p, u) != 0);
                assert(slot_name(p, u) == slot_text(slot_field(p, u)));
            }
        }
    }
}

} // verus!
