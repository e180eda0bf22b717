//! Placement of logical blocks on the devices of a pool.
use vstd::prelude::*;

verus! {

/// The layout of a pool; `to_u8` gives the number stored on disk.
#[derive(Debug, Clone, Copy, PartialEq, Eq, Structural)]
pub enum RaidProfile {
    Single,
    Raid0,
    Raid1,
    Raid5,
    Raid6,
    Raid10,
}

impl RaidProfile {
    pub open spec fn spec_code(self) -> u8 {
        match self {
            RaidProfile::Single => 0,
            RaidProfile::Raid0 => 1,
            RaidProfile::Raid1 => 2,
            RaidProfile::Raid5 => 5,
            RaidProfile::Raid6 => 6,
            RaidProfile::Raid10 => 10,
        }
    }

    pub fn to_u8(self) -> (r: u8)
        ensures
            r == self.spec_code(),
    {
        match self {
            RaidProfile::Single => 0,
            RaidProfile::Raid0 => 1,
            RaidProfile::Raid1 => 2,
            RaidProfile::Raid5 => 5,
            RaidProfile::Raid6 => 6,
            RaidProfile::Raid10 => 10,
        }
    }
}

pub struct RaidEngine {
    pub profile: RaidProfile,
    pub chunk_size_blocks: u32,
    pub num_devices: usize,
}

/// Where striping puts logical block `b`: chunks of `chunk` blocks go to the
/// devices in turn.
pub open spec fn stripe(b: u64, chunk: u32, devices: usize) -> (usize, u64) {
    let stripe_idx = b / (chunk as u64);
    (
        (stripe_idx % (devices as u64)) as usize,
        ((stripe_idx / (devices as u64)) * (chunk as u64) + b % (chunk as u64)) as u64,
    )
}

impl RaidEngine {
    pub fn new(profile: RaidProfile, chunk_size_blocks: u32, num_devices: usize) -> (r: Self)
        ensures
            r.profile == profile,
            r.chunk_size_blocks == chunk_size_blocks,
            r.num_devices == num_devices,
    {
        RaidEngine { profile, chunk_size_blocks, num_devices }
    }

    /// Where logical block `b` is read from: its stripe under RAID 0, the
    /// first device otherwise.
    pub open spec fn read_targets(self, b: u64) -> Seq<(usize, u64)> {
        if self.profile == RaidProfile::Raid0 {
            seq![stripe(b, self.chunk_size_blocks, self.num_devices)]
        } else {
            seq![(0usize, b)]
        }
    }

    /// Where a write of logical block `b` goes: its stripe under RAID 0,
    /// every device under RAID 1, the first device otherwise.
    pub open spec fn write_targets(self, b: u64) -> Seq<(usize, u64)> {
        if self.profile == RaidProfile::Raid0 {
            seq![stripe(b, self.chunk_size_blocks, self.num_devices)]
        } else if self.profile == RaidProfile::Raid1 {
            Seq::new(self.num_devices as nat, |i: int| (i as usize, b))
        } else {
            seq![(0usize, b)]
        }
    }

    /// A block is read from a place that a write of it reaches, so a read
    /// sees the last write: under every profile, given a device to mirror
    /// on.
    pub proof fn lemma_read_is_written(self, b: u64)
        requires
            self.profile == RaidProfile::Raid1 ==> self.num_devices > 0,
        ensures
            self.write_targets(b).contains(self.read_targets(b)[0]),
    {
        if self.profile == RaidProfile::Raid1 {
            assert(self.write_targets(b)[0] == (0usize, b));
        } else {
            assert(self.write_targets(b)[0] == self.read_targets(b)[0]);
        }
    }

    /// A mirror write reaches every device, each once, at the same block.
    pub proof fn lemma_mirror_reaches_every_device(self, b: u64)
        requires
            self.profile == RaidProfile::Raid1,
        ensures
            self.write_targets(b).len() == self.num_devices,
            forall|d: usize| d < self.num_devices ==> #[trigger] self.write_targets(b).contains((d, b)),
            forall|i: int| 0 <= i < self.write_targets(b).len() ==> #[trigger] self.write_targets(b)[i].1 == b,
            self.write_targets(b).no_duplicates(),
    {
        let t = self.write_targets(b);
        assert forall|d: usize| d < self.num_devices implies #[trigger] t.contains((d, b)) by {
            assert(t[d as int] == (d, b));
        }
    }

    /// Striping keeps blocks apart: under RAID 0 a logical block is read
    /// where it is written, on a device of the array, and no two logical
    /// blocks are put in the same place.
    pub proof fn lemma_stripes_apart(self, b1: u64, b2: u64)
        requires
            self.profile == RaidProfile::Raid0,
            self.chunk_size_blocks > 0,
            self.num_devices > 0,
        ensures
            self.read_targets(b1) == self.write_targets(b1),
            self.write_targets(b1).len() == 1,
            self.write_targets(b1)[0].0 < self.num_devices,
            b1 != b2 ==> self.write_targets(b1)[0] != self.write_targets(b2)[0],
    {
        let c = self.chunk_size_blocks as int;
        let n = self.num_devices as int;
        let s1 = b1 as int / c;
        let s2 = b2 as int / c;
        let o1 = b1 as int % c;
        let o2 = b2 as int % c;
        let q1 = s1 / n;
        let q2 = s2 / n;
        let r1 = s1 % n;
        let r2 = s2 % n;
        vstd::arithmetic::div_mod::lemma_fundamental_div_mod(b1 as int, c);
        vstd::arithmetic::div_mod::lemma_fundamental_div_mod(b2 as int, c);
        vstd::arithmetic::div_mod::lemma_fundamental_div_mod(s1, n);
        vstd::arithmetic::div_mod::lemma_fundamental_div_mod(s2, n);
        assert(0 <= o1 < c && 0 <= o2 < c && 0 <= r1 < n && 0 <= r2 < n);
        assert(0 <= s1 && 0 <= s2 && 0 <= q1 && 0 <= q2) by {
            vstd::arithmetic::div_mod::lemma_div_pos_is_pos(b1 as int, c);
            vstd::arithmetic::div_mod::lemma_div_pos_is_pos(b2 as int, c);
            vstd::arithmetic::div_mod::lemma_div_pos_is_pos(s1, n);
            vstd::arithmetic::div_mod::lemma_div_pos_is_pos(s2, n);
        }
        assert(q1 * c + o1 <= b1) by (nonlinear_arith)
            requires
                b1 as int == c * s1 + o1,
                s1 == n * q1 + r1,
                0 <= r1,
                n >= 1,
                c >= 1,
                q1 >= 0,
        ;
        assert(q2 * c + o2 <= b2) by (nonlinear_arith)
            requires
                b2 as int == c * s2 + o2,
                s2 == n * q2 + r2,
                0 <= r2,
                n >= 1,
                c >= 1,
                q2 >= 0,
        ;
        let t1 = self.write_targets(b1)[0];
        let t2 = self.write_targets(b2)[0];
        assert(t1 == (r1 as usize, (q1 * c + o1) as u64));
        assert(t2 == (r2 as usize, (q2 * c + o2) as u64));
        if b1 != b2 && t1 == t2 {
            assert(q1 * c + o1 == q2 * c + o2);
            vstd::arithmetic::div_mod::lemma_fundamental_div_mod_converse(q1 * c + o1, c, q1, o1);
            vstd::arithmetic::div_mod::lemma_fundamental_div_mod_converse(q2 * c + o2, c, q2, o2);
            assert(q1 == q2 && o1 == o2);
            assert(r1 == r2);
            assert(s1 == s2);
            assert(b1 == b2);
        }
    }

    /// The engine can stripe: it has chunks and devices to stripe over.
    pub open spec fn can_map(self) -> bool {
        self.profile == RaidProfile::Raid0 ==> self.chunk_size_blocks > 0 && self.num_devices > 0
    }

    /// The (device, physical block) to read logical block `b` from.
    pub fn map_read(&self, logical_block: u64) -> (r: Vec<(usize, u64)>)
        requires
            self.can_map(),
        ensures
            r@ == self.read_targets(logical_block),
            r@.len() == 1,
            self.profile == RaidProfile::Raid0 ==> r@[0].0 < self.num_devices,
    {
        proof {
            if self.profile == RaidProfile::Raid0 {
                self.lemma_stripes_apart(logical_block, logical_block);
            }
        }
        match self.profile {
            RaidProfile::Raid0 => {
                let m = self.stripe_block(logical_block);
                vec![m]
            },
            _ => vec![(0, logical_block)],
        }
    }

    /// The (device, physical block) pairs that a write of logical block `b`
    /// goes to: every device of a mirror.
    pub fn map_write(&self, logical_block: u64) -> (r: Vec<(usize, u64)>)
        requires
            self.can_map(),
        ensures
            r@ == self.write_targets(logical_block),
            self.profile == RaidProfile::Raid1 ==> r@.len() == self.num_devices && forall|d: usize|
                d < self.num_devices ==> #[trigger] r@.contains((d, logical_block)),
            self.profile != RaidProfile::Raid1 ==> r@.len() == 1,
            self.profile == RaidProfile::Raid0 ==> r@[0].0 < self.num_devices,
    {
        proof {
            if self.profile == RaidProfile::Raid1 {
                self.lemma_mirror_reaches_every_device(logical_block);
            }
            if self.profile == RaidProfile::Raid0 {
                self.lemma_stripes_apart(logical_block, logical_block);
            }
        }
        match self.profile {
            RaidProfile::Raid0 => {
                let m = self.stripe_block(logical_block);
                vec![m]
            },
            RaidProfile::Raid1 => {
                let mut out: Vec<(usize, u64)> = Vec::new();
                let mut dev_idx: usize = 0;
                while dev_idx < self.num_devices
                    invariant
                        dev_idx <= self.num_devices,
                        out@ =~= Seq::new(dev_idx as nat, |i: int| (i as usize, logical_block)),
                    decreases self.num_devices - dev_idx,
                {
                    out.push((dev_idx, logical_block));
                    dev_idx = dev_idx + 1;
                }
                out
            },
            _ => vec![(0, logical_block)],
        }
    }

    fn stripe_block(&self, logical_block: u64) -> (r: (usize, u64))
        requires
            self.chunk_size_blocks > 0,
            self.num_devices > 0,
        ensures
            r == stripe(logical_block, self.chunk_size_blocks, self.num_devices),
    {
        let chunk = self.chunk_size_blocks as u64;
        let n = self.num_devices as u64;
        let stripe_idx = logical_block / chunk;
        let offset_in_stripe = logical_block % chunk;
        let dev_idx = (stripe_idx % n) as usize;
        proof {
            let q = stripe_idx / n;
            assert(q * chunk + offset_in_stripe <= logical_block) by (nonlinear_arith)
                requires
                    chunk > 0,
                    n > 0,
                    stripe_idx == logical_block / chunk,
                    offset_in_stripe == logical_block % chunk,
                    q == stripe_idx / n,
            {
                assert(q * n <= stripe_idx);
                assert(q <= stripe_idx);
                assert(q * chunk <= stripe_idx * chunk);
                assert(stripe_idx * chunk + offset_in_stripe == logical_block);
            }
        }
        let physical_block = (stripe_idx / n) * chunk + offset_in_stripe;
        (dev_idx, physical_block)
    }
}

} // verus!
