use std::collections::HashMap;
use vstd::prelude::*;

verus! {

broadcast use vstd::std_specs::hash::group_hash_axioms;

/// Size in bytes of one block.
pub const BLOCK_SIZE: usize = 4096;

/// The contents of a block that was never written.
pub open spec fn zero_block() -> Seq<u8> {
    Seq::new(BLOCK_SIZE as nat, |i: int| 0u8)
}

/// The blocks that a transaction sees: every block number maps to
/// `BLOCK_SIZE` bytes, zero until written.
pub struct TxContext {
    blocks: HashMap<u64, Vec<u8>>,
    written: Vec<u64>,
}

impl TxContext {
    #[verifier::type_invariant]
    spec fn wf(self) -> bool {
        &&& forall|b: u64| #[trigger] self.blocks@.contains_key(b) <==> self.written@.contains(b)
        &&& self.written@.no_duplicates()
    }

    /// The bytes of block `b`.
    pub closed spec fn block(self, b: u64) -> Seq<u8> {
        if self.blocks@.contains_key(b) && self.blocks@[b]@.len() == BLOCK_SIZE {
            self.blocks@[b]@
        } else {
            zero_block()
        }
    }

    /// The blocks written so far, each once, in the order first written.
    pub closed spec fn written(self) -> Seq<u64> {
        self.written@
    }

    /// Every block holds exactly `BLOCK_SIZE` bytes.
    pub broadcast proof fn lemma_block_len(self, b: u64)
        ensures
            #[trigger] self.block(b).len() == BLOCK_SIZE,
    {
    }

    /// A context in which every block is zero.
    pub fn new() -> (r: Self)
        ensures
            forall|b: u64| #[trigger] r.block(b) == zero_block(),
            r.written() == Seq::<u64>::empty(),
    {
        TxContext { blocks: HashMap::new(), written: Vec::new() }
    }

    /// Returns a copy of block `b`.
    pub fn read_block(&self, b: u64) -> (r: Vec<u8>)
        ensures
            r@ == self.block(b),
    {
        match self.blocks.get(&b) {
            Some(v) => {
                if v.len() == BLOCK_SIZE {
                    let c = v.clone();
                    assert(c@ =~= v@);
                    c
                } else {
                    let z = vec![0u8; BLOCK_SIZE];
                    assert(z@ =~= zero_block());
                    z
                }
            },
            None => {
                let z = vec![0u8; BLOCK_SIZE];
                assert(z@ =~= zero_block());
                z
            },
        }
    }

    /// Replaces block `b` with `data`; no other block changes.
    pub fn write_block(&mut self, b: u64, data: &[u8])
        requires
            data@.len() == BLOCK_SIZE,
        ensures
            final(self).block(b) == data@,
            forall|x: u64| x != b ==> #[trigger] final(self).block(x) == old(self).block(x),
            final(self).written() == if old(self).written().contains(b) {
                old(self).written()
            } else {
                old(self).written().push(b)
            },
    {
        proof {
            use_type_invariant(&*self);
        }
        let mut v: Vec<u8> = Vec::new();
        v.extend_from_slice(data);
        assert(v@ =~= data@);
        let mut me = TxContext { blocks: HashMap::new(), written: Vec::new() };
        std::mem::swap(&mut me, self);
        let TxContext { mut blocks, mut written } = me;
        let ghost old_blocks = blocks@;
        let ghost old_written = written@;
        if !blocks.contains_key(&b) {
            written.push(b);
        }
        blocks.insert(b, v);
        proof {
            assert forall|x: u64| #[trigger] blocks@.contains_key(x) <==> written@.contains(x) by {
                if x != b {
                    assert(old_blocks.contains_key(x) <==> old_written.contains(x));
                    if old_written.contains(x) {
                        let i = choose|i: int| 0 <= i < old_written.len() && old_written[i] == x;
                        assert(written@[i] == x);
                    }
                }
                if x == b {
                    if !old_blocks.contains_key(b) {
                        assert(written@[written@.len() - 1] == b);
                    }
                }
            }
            assert forall|i: int, j: int| 0 <= i < written@.len() && 0 <= j < written@.len() && i != j
                implies written@[i] != written@[j] by {
                if !old_blocks.contains_key(b) {
                    if i == old_written.len() as int {
                        assert(!old_written.contains(b));
                        assert(old_written[j] == written@[j]);
                    }
                    if j == old_written.len() as int {
                        assert(!old_written.contains(b));
                        assert(old_written[i] == written@[i]);
                    }
                }
            }
        }
        *self = TxContext { blocks, written };
    }

    /// The numbers of the blocks that have been written, each once.
    pub fn written_blocks(&self) -> (r: Vec<u64>)
        ensures
            r@ == self.written(),
            r@.no_duplicates(),
            forall|b: u64| self.block(b) != zero_block() ==> r@.contains(b),
    {
        proof {
            use_type_invariant(self);
        }
        self.written.clone()
    }
}

} // verus!
