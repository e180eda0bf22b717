//! Crash recovery: which committed journal transactions to replay.
use crate::codec::{get_u32, get_u64};
use crate::inode::{u32_at, u64_at};
use crate::ondisk::records::JOURNAL_MAGIC;
use std::collections::BTreeMap;
use vstd::laws_cmp::obeys_cmp;
use vstd::std_specs::btree::spec_keys_iter;
use vstd::std_specs::btree::increasing_seq;
use vstd::std_specs::cmp::OrdSpec;
use vstd::std_specs::iter::IteratorSpec;
use vstd::prelude::*;

verus! {

broadcast use vstd::laws_cmp::group_laws_cmp, vstd::std_specs::btree::group_btree_axioms,
    vstd::std_specs::btree::axiom_spec_keys_iter;

/// Bytes of a journal block.
pub const JOURNAL_BLOCK_SIZE: usize = 4096;

/// The CRC-32 (IEEE) of `data`.
pub uninterp spec fn crc32_of(data: Seq<u8>) -> u32;

/// `crc32fast::hash`: the CRC-32 checksum of `data`.
#[verifier::external_body]
pub(crate) fn crc32(data: &[u8]) -> (r: u32)
    ensures
        r == crc32_of(data@),
{
    crc32fast::hash(data)
}

/// `b` with the four bytes at `off` set to zero.
pub open spec fn zero_field(b: Seq<u8>, off: int) -> Seq<u8> {
    b.subrange(0, off) + Seq::new(4, |i: int| 0u8) + b.subrange(off + 4, b.len() as int)
}

/// A transaction header: the magic, and a checksum (at 32) over the block
/// with that field zeroed.
pub open spec fn header_ok(b: Seq<u8>) -> bool {
    u64_at(b, 0) == JOURNAL_MAGIC && crc32_of(zero_field(b, 32)) == u32_at(b, 32)
}

/// A commit block for transaction `tx`: the magic, the transaction id, and a
/// checksum (at 20) over the block with that field zeroed.
pub open spec fn footer_ok(b: Seq<u8>, tx: u64) -> bool {
    u64_at(b, 0) == JOURNAL_MAGIC && u64_at(b, 8) == tx && crc32_of(zero_field(b, 20)) == u32_at(b, 20)
}

/// The `k` records that start at journal block `t`, each a record header
/// (target block at 8, data checksum at 16) followed by its data block; with
/// the block after them. None when the journal ends first or a checksum
/// fails.
pub open spec fn records_from(j: Seq<Seq<u8>>, t: int, k: nat) -> Option<(int, Seq<(u64, Seq<u8>)>)>
    decreases k,
{
    if k == 0 {
        Some((t, Seq::empty()))
    } else if t < 0 || t + 1 >= j.len() {
        None
    } else if crc32_of(j[t + 1]) != u32_at(j[t], 16) {
        None
    } else {
        match records_from(j, t + 2, (k - 1) as nat) {
            Some((e, rs)) => Some((e, seq![(u64_at(j[t], 8), j[t + 1])] + rs)),
            None => None,
        }
    }
}

pub proof fn lemma_records_from(j: Seq<Seq<u8>>, t: int, k: nat)
    ensures
        records_from(j, t, k) matches Some((e, rs)) ==> e == t + 2 * k && rs.len() == k,
    decreases k,
{
    if k > 0 && t >= 0 && t + 1 < j.len() {
        lemma_records_from(j, t + 2, (k - 1) as nat);
    }
}

/// The committed transaction whose header is block `i`: its id, the block of
/// its commit record, and its records.
pub open spec fn tx_at(j: Seq<Seq<u8>>, i: int) -> Option<(u64, int, Seq<(u64, Seq<u8>)>)> {
    let b = j[i];
    if !header_ok(b) {
        None
    } else {
        match records_from(j, i + 1, u32_at(b, 12) as nat) {
            Some((e, rs)) => if e < j.len() && footer_ok(j[e], u64_at(b, 16)) {
                Some((u64_at(b, 16), e, rs))
            } else {
                None
            },
            None => None,
        }
    }
}

/// The transactions found from block `pos` on, added to `txs`, with the
/// highest id seen: a committed transaction is taken whole and the scan goes
/// on after its commit block; any other block is skipped.
pub open spec fn scan(j: Seq<Seq<u8>>, pos: int, txs: Map<u64, Seq<(u64, Seq<u8>)>>, highest: u64) -> (Map<
    u64,
    Seq<(u64, Seq<u8>)>,
>, u64)
    decreases j.len() - pos,
{
    if pos < 0 || pos >= j.len() {
        (txs, highest)
    } else {
        match tx_at(j, pos) {
            Some((tx, e, rs)) => if e > pos {
                scan(j, e + 1, txs.insert(tx, rs), if tx > highest { tx } else { highest })
            } else {
                scan(j, pos + 1, txs, highest)
            },
            None => scan(j, pos + 1, txs, highest),
        }
    }
}

/// The writes of the transactions of `txs` newer than `generation`, in the
/// order of their ids, each transaction's writes in journal order.
pub open spec fn replay_writes(txs: Seq<(u64, Seq<(u64, Seq<u8>)>)>, generation: u64) -> Seq<(u64, Seq<u8>)>
    decreases txs.len(),
{
    if txs.len() == 0 {
        Seq::empty()
    } else {
        let rest = replay_writes(txs.drop_first(), generation);
        if txs[0].0 > generation {
            txs[0].1 + rest
        } else {
            rest
        }
    }
}

/// The entries of `s` as a map from transaction id to records.
pub open spec fn entries_map(s: Seq<(u64, Seq<(u64, Seq<u8>)>)>) -> Map<u64, Seq<(u64, Seq<u8>)>>
    decreases s.len(),
{
    if s.len() == 0 {
        Map::empty()
    } else {
        entries_map(s.drop_last()).insert(s.last().0, s.last().1)
    }
}

/// The ids of `s` strictly increase.
pub open spec fn ids_increase(s: Seq<(u64, Seq<(u64, Seq<u8>)>)>) -> bool {
    forall|a: int, b: int| 0 <= a < b < s.len() ==> s[a].0 < s[b].0
}

pub open spec fn records_view(v: Seq<(u64, Vec<u8>)>) -> Seq<(u64, Seq<u8>)> {
    Seq::new(v.len(), |i: int| (v[i].0, v[i].1@))
}

/// The transactions kept by id, each with the view of its records.
pub open spec fn txs_map(m: Map<u64, Vec<(u64, Vec<u8>)>>) -> Map<u64, Seq<(u64, Seq<u8>)>> {
    m.map_values(|v: Vec<(u64, Vec<u8>)>| records_view(v@))
}

pub open spec fn journal_view(j: Seq<Vec<u8>>) -> Seq<Seq<u8>> {
    Seq::new(j.len(), |i: int| j[i]@)
}

/// The number of entries of `s` newer than `generation`.
pub open spec fn count_newer(s: Seq<(u64, Seq<(u64, Seq<u8>)>)>, generation: u64) -> nat
    decreases s.len(),
{
    if s.len() == 0 {
        0
    } else {
        count_newer(s.drop_first(), generation) + if s[0].0 > generation { 1nat } else { 0nat }
    }
}

/// What recovery does: the highest transaction id seen, the block writes to
/// replay in order, and how many transactions they come from.
pub struct RecoveryPlan {
    pub highest_tx: u64,
    pub writes: Vec<(u64, Vec<u8>)>,
    pub replayed: u64,
}

pub struct RecoveryManager;

/// `b` with the four bytes at `off` set to zero.
pub(crate) fn with_zero_field(b: &Vec<u8>, off: usize) -> (r: Vec<u8>)
    requires
        off + 4 <= b@.len(),
    ensures
        r@ == zero_field(b@, off as int),
{
    let mut out: Vec<u8> = Vec::new();
    let mut i: usize = 0;
    while i < b.len()
        invariant
            off + 4 <= b@.len(),
            i <= b@.len(),
            out@.len() == i,
            forall|k: int| 0 <= k < i ==> #[trigger] out@[k] == (if off <= k < off + 4 { 0u8 } else { b@[k] }),
        decreases b@.len() - i,
    {
        if off <= i && i < off + 4 {
            out.push(0u8);
        } else {
            out.push(b[i]);
        }
        i = i + 1;
    }
    assert(out@ =~= zero_field(b@, off as int));
    out
}

/// A list of transactions with increasing ids that holds exactly the
/// entries of `m` describes `m`.
proof fn lemma_entries_map_of(s: Seq<(u64, Seq<(u64, Seq<u8>)>)>, m: Map<u64, Seq<(u64, Seq<u8>)>>)
    requires
        ids_increase(s),
        forall|i: int| 0 <= i < s.len() ==> #[trigger] m.contains_key(s[i].0) && m[s[i].0] == s[i].1,
        forall|k: u64| #[trigger] m.contains_key(k) ==> exists|i: int| 0 <= i < s.len() && s[i].0 == k,
    ensures
        entries_map(s) == m,
    decreases s.len(),
{
    if s.len() == 0 {
        assert(m =~= Map::empty()) by {
            assert forall|k: u64| !m.contains_key(k) by {
                if m.contains_key(k) {
                    let i = choose|i: int| 0 <= i < s.len() && s[i].0 == k;
                }
            }
        }
    } else {
        let d = s.drop_last();
        let l = s.last();
        let m1 = m.remove(l.0);
        assert forall|i: int| 0 <= i < d.len() implies #[trigger] m1.contains_key(d[i].0) && m1[d[i].0] == d[i].1 by {
            assert(s[i] == d[i]);
            assert(s[i].0 < s[s.len() - 1].0);
        }
        assert forall|k: u64| #[trigger] m1.contains_key(k) implies exists|i: int| 0 <= i < d.len() && d[i].0 == k by {
            assert(m.contains_key(k));
            let i = choose|i: int| 0 <= i < s.len() && s[i].0 == k;
            assert(i != s.len() - 1);
            assert(d[i].0 == k);
        }
        lemma_entries_map_of(d, m1);
        assert(m.contains_key(s[s.len() - 1].0));
        assert(entries_map(s) =~= m);
    }
}

proof fn lemma_count_newer(s: Seq<(u64, Seq<(u64, Seq<u8>)>)>, generation: u64)
    ensures
        count_newer(s, generation) <= s.len(),
    decreases s.len(),
{
    if s.len() > 0 {
        lemma_count_newer(s.drop_first(), generation);
    }
}

/// The keys that the key iterator of a map of `u64` keys yields increase.
proof fn lemma_keys_increase(s: Seq<&u64>)
    requires
        increasing_seq(s),
    ensures
        forall|a: int, b: int| 0 <= a < b < s.len() ==> *s[a] < *s[b],
{
    assert(obeys_cmp::<u64>());
    assert(obeys_cmp::<&u64>());
    vstd::std_specs::btree::axiom_increasing_seq_meaning::<&u64>(s);
    assert forall|a: int, b: int| 0 <= a < b < s.len() implies *s[a] < *s[b] by {
        assert(OrdSpec::cmp_spec(&s[a], &s[b]) is Less);
    }
}

/// The ids of `txs`, in increasing order.
fn tx_ids(txs: &BTreeMap<u64, Vec<(u64, Vec<u8>)>>) -> (ids: Vec<u64>)
    ensures
        forall|a: int, b: int| 0 <= a < b < ids@.len() ==> ids@[a] < ids@[b],
        forall|k: u64| txs@.contains_key(k) <==> ids@.contains(k),
{
    let mut ids: Vec<u64> = Vec::new();
    for k in it: txs.keys()
        invariant
            ids@.len() == it.index(),
            it.seq() == spec_keys_iter(txs).remaining(),
            forall|i: int| 0 <= i < ids@.len() ==> ids@[i] == *it.seq()[i],
    {
        ids.push(*k);
    }
    proof {
        let s = spec_keys_iter(txs).remaining();
        assert(ids@ =~= s.unref());
        assert(obeys_cmp::<&u64>());
        lemma_keys_increase(s);
        assert forall|k: u64| txs@.contains_key(k) <==> ids@.contains(k) by {
            if txs@.contains_key(k) {
                assert(s.unref().to_set().contains(k));
            }
            if ids@.contains(k) {
                assert(s.unref().to_set().contains(k));
            }
        }
    }
    ids
}

impl RecoveryManager {
    /// Plans the recovery of a volume at `generation` from the blocks of its
    /// journal, in order: every committed transaction found by a scan of the
    /// journal is kept (a later one with the same id replaces an earlier
    /// one), and the writes of those newer than `generation` are replayed in
    /// the order of their ids. With no journal there is nothing to do.
    pub fn plan(journal: &Vec<Vec<u8>>, generation: u64) -> (r: RecoveryPlan)
        requires
            forall|i: int| 0 <= i < journal@.len() ==> (#[trigger] journal@[i])@.len() == JOURNAL_BLOCK_SIZE,
        ensures
            journal@.len() == 0 ==> r.highest_tx == 0 && r.writes@.len() == 0 && r.replayed == 0,
            journal@.len() > 0 ==> ({
                let found = scan(journal_view(journal@), 0, Map::empty(), generation);
                exists|txs: Seq<(u64, Seq<(u64, Seq<u8>)>)>|
                    #[trigger] ids_increase(txs) && entries_map(txs) == found.0 && r.highest_tx == found.1
                        && records_view(r.writes@) == replay_writes(txs, generation) && r.replayed == count_newer(
                        txs,
                        generation,
                    )
            }),
    {
        let n = journal.len();
        if n == 0 {
            return RecoveryPlan { highest_tx: 0, writes: Vec::new(), replayed: 0 };
        }
        let ghost jv = journal_view(journal@);
        let mut txs: BTreeMap<u64, Vec<(u64, Vec<u8>)>> = BTreeMap::new();
        let mut highest = generation;
        let mut current: usize = 0;
        proof {
            assert(txs_map(txs@) =~= Map::<u64, Seq<(u64, Seq<u8>)>>::empty());
        }
        while current < n
            invariant
                n == journal@.len(),
                jv == journal_view(journal@),
                forall|i: int| 0 <= i < journal@.len() ==> (#[trigger] journal@[i])@.len() == JOURNAL_BLOCK_SIZE,
                current <= n,
                scan(jv, 0, Map::empty(), generation) == scan(jv, current as int, txs_map(txs@), highest),
            decreases n - current,
        {
            let ghost pos = current as int;
            let ghost m0 = txs_map(txs@);
            let ghost h0 = highest;
            let b = &journal[current];
            proof {
                assert(jv[pos] == b@);
            }
            if get_u64(b.as_slice(), 0) == JOURNAL_MAGIC {
                let saved = get_u32(b.as_slice(), 32);
                let zeroed = with_zero_field(b, 32);
                if crc32(zeroed.as_slice()) == saved {
                    let count = get_u32(b.as_slice(), 12);
                    let tx_id = get_u64(b.as_slice(), 16);
                    let mut records: Vec<(u64, Vec<u8>)> = Vec::new();
                    let mut valid = true;
                    let mut temp = current + 1;
                    let mut k: u32 = 0;
                    while k < count
                        invariant_except_break
                            valid,
                            temp == current + 1 + 2 * k,
                            temp <= n,
                            records_from(jv, pos + 1, count as nat) == match records_from(jv, temp as int, (count - k) as nat) {
                                Some((e, rs)) => Some((e, records_view(records@) + rs)),
                                None => None,
                            },
                        invariant
                            n == journal@.len(),
                            jv == journal_view(journal@),
                            forall|i: int| 0 <= i < journal@.len() ==> (#[trigger] journal@[i])@.len() == JOURNAL_BLOCK_SIZE,
                            current < n,
                            k <= count,
                            pos == current as int,
                        ensures
                            valid ==> k == count && temp <= n && temp == current + 1 + 2 * count && records_from(jv, pos + 1, count as nat) == Some(
                                (temp as int, records_view(records@)),
                            ),
                            !valid ==> records_from(jv, pos + 1, count as nat) is None,
                        decreases count - k,
                    {
                        let ghost t0 = temp as int;
                        if temp >= n {
                            valid = false;
                            break;
                        }
                        let rec = &journal[temp];
                        temp = temp + 1;
                        if temp >= n {
                            valid = false;
                            break;
                        }
                        let data = journal[temp].clone();
                        temp = temp + 1;
                        proof {
                            assert(jv[temp - 2] == rec@);
                            assert(jv[temp - 1] == journal@[temp - 1]@);
                        }
                        if crc32(data.as_slice()) != get_u32(rec.as_slice(), 16) {
                            valid = false;
                            break;
                        }
                        let target = get_u64(rec.as_slice(), 8);
                        let ghost before = records@;
                        records.push((target, data));
                        proof {
                            let t0 = temp - 2;
                            assert(records_view(records@) =~= records_view(before) + seq![(u64_at(jv[t0], 8), jv[t0 + 1])]);
                            match records_from(jv, temp as int, (count - k - 1) as nat) {
                                Some((e, rs)) => {
                                    assert(records_view(records@) + rs =~= records_view(before) + (seq![(u64_at(jv[t0], 8), jv[t0 + 1])] + rs));
                                },
                                None => {},
                            }
                        }
                        k = k + 1;
                    }
                    proof {
                        if valid {
                            assert(records_view(records@) + Seq::<(u64, Seq<u8>)>::empty() =~= records_view(records@));
                        }
                    }
                    if valid && temp < n {
                        let f = &journal[temp];
                        let fsum = get_u32(f.as_slice(), 20);
                        let fz = with_zero_field(f, 20);
                        proof {
                            assert(jv[temp as int] == f@);
                        }
                        if get_u64(f.as_slice(), 0) == JOURNAL_MAGIC && get_u64(f.as_slice(), 8) == tx_id && crc32(fz.as_slice()) == fsum {
                            let ghost rv = records_view(records@);
                            let ghost before = txs@;
                            txs.insert(tx_id, records);
                            assert(txs_map(txs@) =~= txs_map(before).insert(tx_id, rv));
                            if tx_id > highest {
                                highest = tx_id;
                            }
                            proof {
                                assert(tx_at(jv, pos) == Some((tx_id, temp as int, rv)));
                                assert(scan(jv, pos, m0, h0) == scan(jv, temp + 1, txs_map(txs@), highest));
                            }
                            current = temp;
                        } else {
                            proof {
                                assert(!footer_ok(jv[temp as int], u64_at(jv[pos], 16)));
                                assert(tx_at(jv, pos) is None);
                            }
                        }
                    } else {
                        proof {
                            assert(tx_at(jv, pos) is None);
                        }
                    }
                } else {
                    proof {
                        assert(!header_ok(jv[pos]));
                        assert(tx_at(jv, pos) is None);
                    }
                }
            } else {
                proof {
                    assert(!header_ok(jv[pos]));
                    assert(tx_at(jv, pos) is None);
                }
            }
            current = current + 1;
        }
        let ids = tx_ids(&txs);
        let ghost m = txs@;
        let ghost all = Seq::new(ids@.len(), |i: int| (ids@[i], txs_map(m)[ids@[i]]));
        let total = ids.len();
        proof {
            assert(scan(jv, 0, Map::empty(), generation) == (txs_map(m), highest));
            assert(ids_increase(all));
            lemma_count_newer(all, generation);
            assert forall|i: int| 0 <= i < all.len() implies #[trigger] txs_map(m).contains_key(all[i].0) && txs_map(m)[all[i].0]
                == all[i].1 by {
                assert(ids@.contains(ids@[i]));
            }
            assert forall|k: u64| #[trigger] txs_map(m).contains_key(k) implies exists|i: int| 0 <= i < all.len() && all[i].0 == k by {
                assert(ids@.contains(k));
                let i = choose|i: int| 0 <= i < ids@.len() && ids@[i] == k;
                assert(all[i].0 == k);
            }
            lemma_entries_map_of(all, txs_map(m));
            assert forall|i: int| 0 <= i < total implies #[trigger] txs@.contains_key(ids@[i]) && txs@[ids@[i]] == m[ids@[i]] by {
                assert(ids@.contains(ids@[i]));
            }
            assert(all.subrange(0, total as int) =~= all);
        }
        let mut writes: Vec<(u64, Vec<u8>)> = Vec::new();
        let mut replayed: u64 = 0;
        let mut j: usize = 0;
        while j < total
            invariant
                total == ids@.len(),
                all.len() == total,
                j <= total,
                forall|a: int, b: int| 0 <= a < b < ids@.len() ==> ids@[a] < ids@[b],
                forall|i: int| 0 <= i < total ==> #[trigger] all[i] == (ids@[i], txs_map(m)[ids@[i]]),
                forall|i: int| j <= i < total ==> #[trigger] txs@.contains_key(ids@[i]) && txs@[ids@[i]] == m[ids@[i]],
                forall|k: u64| #[trigger] m.contains_key(k) <==> ids@.contains(k),
                replay_writes(all, generation) == records_view(writes@) + replay_writes(all.subrange(j as int, total as int), generation),
                count_newer(all, generation) == replayed + count_newer(all.subrange(j as int, total as int), generation),
                count_newer(all, generation) <= all.len(),
            decreases total - j,
        {
            let ghost rest = all.subrange(j as int, total as int);
            let ghost before = txs@;
            let id = ids[j];
            let taken = txs.remove(&id);
            proof {
                assert(ids@.contains(id));
                assert(rest.drop_first() =~= all.subrange(j + 1, total as int));
                assert(rest[0] == all[j as int]);
                assert forall|i: int| j + 1 <= i < total implies #[trigger] txs@.contains_key(ids@[i]) && txs@[ids@[i]]
                    == m[ids@[i]] by {
                    assert(ids@[j as int] < ids@[i]);
                    assert(before.contains_key(ids@[i]));
                }
                lemma_count_newer(all.subrange(j + 1, total as int), generation);
            }
            match taken {
                Some(recs) => {
                    let mut recs = recs;
                    if id > generation {
                        let ghost w0 = writes@;
                        let ghost r0 = recs@;
                        writes.append(&mut recs);
                        replayed = replayed + 1;
                        proof {
                            assert(records_view(writes@) =~= records_view(w0) + records_view(r0));
                        }
                    }
                },
                None => {},
            }
            j = j + 1;
        }
        proof {
            assert(all.subrange(total as int, total as int) =~= Seq::<(u64, Seq<(u64, Seq<u8>)>)>::empty());
            assert(records_view(writes@) + Seq::<(u64, Seq<u8>)>::empty() =~= records_view(writes@));
            assert(ids_increase(all) && entries_map(all) == scan(jv, 0, Map::empty(), generation).0);
        }
        RecoveryPlan { highest_tx: highest, writes, replayed }
    }
}

} // verus!
