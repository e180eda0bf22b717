//! Feature flags and the mounts they allow.
use vstd::prelude::*;

verus! {

pub const LFS_FEATURE_COMPAT_DIR_INDEX: u64 = 1;

pub const LFS_FEATURE_RO_COMPAT_LARGE_FILE: u64 = 1;

pub const LFS_FEATURE_RO_COMPAT_EXTRA_ISIZE: u64 = 2;

pub const LFS_FEATURE_INCOMPAT_COMPRESSION: u64 = 1;

pub const LFS_FEATURE_INCOMPAT_ENCRYPTION: u64 = 2;

pub const LFS_FEATURE_INCOMPAT_RAID: u64 = 4;

/// The features a volume uses, by compatibility class.
pub struct FeatureNegotiator {
    pub compat_flags: u64,
    pub ro_compat_flags: u64,
    pub incompat_flags: u64,
}

/// Every flag set in `used` is also set in `supported`.
pub open spec fn covers(used: u64, supported: u64) -> bool {
    used & !supported == 0
}

impl FeatureNegotiator {
    pub fn new(compat: u64, ro_compat: u64, incompat: u64) -> (r: Self)
        ensures
            r.compat_flags == compat,
            r.ro_compat_flags == ro_compat,
            r.incompat_flags == incompat,
    {
        FeatureNegotiator { compat_flags: compat, ro_compat_flags: ro_compat, incompat_flags: incompat }
    }

    /// A read-write mount needs every incompatible and every read-only
    /// compatible feature supported.
    pub fn supports_write(&self, supported_incompat: u64, supported_ro_compat: u64) -> (r: bool)
        ensures
            r == (covers(self.incompat_flags, supported_incompat) && covers(
                self.ro_compat_flags,
                supported_ro_compat,
            )),
    {
        (self.incompat_flags & !supported_incompat == 0) && (self.ro_compat_flags & !supported_ro_compat == 0)
    }

    /// A read-only mount needs every incompatible feature supported.
    pub fn supports_read(&self, supported_incompat: u64) -> (r: bool)
        ensures
            r == covers(self.incompat_flags, supported_incompat),
    {
        self.incompat_flags & !supported_incompat == 0
    }
}

/// What can be mounted read-write can be mounted read-only.
pub proof fn lemma_write_implies_read(f: FeatureNegotiator, supported_incompat: u64, supported_ro_compat: u64)
    requires
        covers(f.incompat_flags, supported_incompat) && covers(f.ro_compat_flags, supported_ro_compat),
    ensures
        covers(f.incompat_flags, supported_incompat),
{
}

} // verus!
