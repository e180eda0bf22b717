//! The payloads of the blocks of a mounted store, held in memory. The image
//! file is read into it at mount and the blocks written are stored back by
//! the caller.
use crate::inode::PAYLOAD_SIZE;
use std::collections::HashMap;
use vstd::prelude::*;

verus! {

broadcast use vstd::std_specs::hash::group_hash_axioms;

/// The payload of a block never written.
pub open spec fn zero_payload() -> Seq<u8> {
    Seq::new(PAYLOAD_SIZE as nat, |i: int| 0u8)
}

/// Every block maps to a payload of `PAYLOAD_SIZE` bytes, zero until
/// written; the blocks written since they were last taken are listed, each
/// once.
pub struct BlockStore {
    blocks: HashMap<u32, Vec<u8>>,
    written: Vec<u32>,
}

impl BlockStore {
    #[verifier::type_invariant]
    spec fn wf(self) -> bool {
        &&& forall|b: u32| #[trigger] self.blocks@.contains_key(b) ==> self.blocks@[b]@.len() == PAYLOAD_SIZE
        &&& self.written@.no_duplicates()
    }

    /// The payload of block `b`.
    pub closed spec fn payload(self, b: u32) -> Seq<u8> {
        if self.blocks@.contains_key(b) && self.blocks@[b]@.len() == PAYLOAD_SIZE {
            self.blocks@[b]@
        } else {
            zero_payload()
        }
    }

    /// Every payload holds `PAYLOAD_SIZE` bytes.
    pub proof fn lemma_payload_len(self, b: u32)
        ensures
            self.payload(b).len() == PAYLOAD_SIZE,
    {
    }

    /// The blocks written since they were last taken, in the order first
    /// written.
    pub closed spec fn written(self) -> Seq<u32> {
        self.written@
    }

    /// Every block whose payload differs in `later` is listed as written
    /// there, and every block listed here is still listed there.
    pub open spec fn changes_listed(self, later: Self) -> bool {
        &&& forall|x: u32| #[trigger] later.payload(x) != self.payload(x) ==> later.written().contains(x)
        &&& forall|x: u32| self.written().contains(x) ==> #[trigger] later.written().contains(x)
    }

    /// Changes listed from `a` to `b` and from `b` to `c` are listed from
    /// `a` to `c`.
    pub proof fn lemma_changes_listed_trans(a: Self, b: Self, c: Self)
        requires
            a.changes_listed(b),
            b.changes_listed(c),
        ensures
            a.changes_listed(c),
    {
        assert forall|x: u32| #[trigger] c.payload(x) != a.payload(x) implies c.written().contains(x) by {
            if b.payload(x) != a.payload(x) {
                assert(b.written().contains(x));
            } else {
                assert(c.payload(x) != b.payload(x));
            }
        }
        assert forall|x: u32| a.written().contains(x) implies #[trigger] c.written().contains(x) by {
            assert(b.written().contains(x));
        }
    }

    /// A store of zero blocks, none written.
    pub fn new() -> (r: Self)
        ensures
            forall|b: u32| #[trigger] r.payload(b) == zero_payload(),
            r.written() == Seq::<u32>::empty(),
    {
        BlockStore { blocks: HashMap::new(), written: Vec::new() }
    }

    /// A copy of the payload of block `b`.
    pub fn read_block(&self, b: u32) -> (r: Vec<u8>)
        ensures
            r@ == self.payload(b),
            r@.len() == PAYLOAD_SIZE,
    {
        proof {
            use_type_invariant(self);
        }
        match self.blocks.get(&b) {
            Some(v) => {
                let c = v.clone();
                assert(c@ =~= v@);
                c
            },
            None => {
                let z = vec![0u8; PAYLOAD_SIZE];
                assert(z@ =~= zero_payload());
                z
            },
        }
    }

    fn put(&mut self, b: u32, data: &[u8])
        requires
            data@.len() == PAYLOAD_SIZE,
        ensures
            final(self).payload(b) == data@,
            forall|x: u32| x != b ==> #[trigger] final(self).payload(x) == old(self).payload(x),
            final(self).written() == old(self).written(),
    {
        proof {
            use_type_invariant(&*self);
        }
        let mut v: Vec<u8> = Vec::new();
        v.extend_from_slice(data);
        assert(v@ =~= data@);
        let mut me = BlockStore::new();
        std::mem::swap(&mut me, self);
        let BlockStore { mut blocks, written } = me;
        blocks.insert(b, v);
        *self = BlockStore { blocks, written };
    }

    /// Holds `data` as the payload of block `b`, as read from the image:
    /// the block is not listed as written.
    pub fn load(&mut self, b: u32, data: &[u8])
        requires
            data@.len() == PAYLOAD_SIZE,
        ensures
            final(self).payload(b) == data@,
            forall|x: u32| x != b ==> #[trigger] final(self).payload(x) == old(self).payload(x),
            final(self).written() == old(self).written(),
    {
        self.put(b, data);
    }

    /// Replaces the payload of block `b` with `data` and lists the block as
    /// written.
    pub fn write_block(&mut self, b: u32, data: &[u8])
        requires
            data@.len() == PAYLOAD_SIZE,
        ensures
            final(self).payload(b) == data@,
            forall|x: u32| x != b ==> #[trigger] final(self).payload(x) == old(self).payload(x),
            final(self).written() == if old(self).written().contains(b) {
                old(self).written()
            } else {
                old(self).written().push(b)
            },
            old(self).changes_listed(*final(self)),
    {
        let listed = self.is_listed(b);
        self.put(b, data);
        if !listed {
            proof {
                use_type_invariant(&*self);
            }
            let ghost mid = *self;
            let mut me = BlockStore::new();
            std::mem::swap(&mut me, self);
            proof {
                use_type_invariant(&me);
            }
            let BlockStore { blocks, mut written } = me;
            let ghost before = written@;
            written.push(b);
            proof {
                assert forall|j: int, k: int|
                    0 <= j < written@.len() && 0 <= k < written@.len() && j != k implies written@[j]
                    != written@[k] by {
                    if j == before.len() as int {
                        assert(written@[k] == before[k]);
                    } else if k == before.len() as int {
                        assert(written@[j] == before[j]);
                    }
                }
            }
            *self = BlockStore { blocks, written };
            assert(forall|x: u32| #[trigger] self.payload(x) == mid.payload(x));
            assert(self.written().contains(b)) by {
                assert(self.written()[self.written().len() - 1] == b);
            }
        }
        proof {
            assert forall|x: u32| old(self).written().contains(x) implies #[trigger] self.written().contains(x) by {
                let j = choose|j: int| 0 <= j < old(self).written().len() && old(self).written()[j] == x;
                assert(self.written()[j] == x);
            }
        }
    }

    fn is_listed(&self, b: u32) -> (r: bool)
        ensures
            r == self.written().contains(b),
    {
        let mut i: usize = 0;
        while i < self.written.len()
            invariant
                i <= self.written@.len(),
                forall|j: int| 0 <= j < i ==> self.written@[j] != b,
            decreases self.written@.len() - i,
        {
            if self.written[i] == b {
                assert(self.written@[i as int] == b);
                return true;
            }
            i = i + 1;
        }
        false
    }

    /// The blocks written since they were last taken, in the order first
    /// written; the list starts over.
    pub fn take_written(&mut self) -> (r: Vec<u32>)
        ensures
            r@ == old(self).written(),
            final(self).written() == Seq::<u32>::empty(),
            forall|x: u32| #[trigger] final(self).payload(x) == old(self).payload(x),
    {
        let mut me = BlockStore::new();
        std::mem::swap(&mut me, self);
        proof {
            use_type_invariant(&me);
        }
        let BlockStore { blocks, written } = me;
        *self = BlockStore { blocks, written: Vec::new() };
        written
    }
}

} // verus!
