//! The optimization profile the filesystem runs under.
use vstd::prelude::*;

verus! {

#[derive(Debug, Clone, Copy, PartialEq, Eq, Structural)]
pub enum OptimizationProfile {
    PerformanceFirst,
    Balanced,
    PowerSaving,
    MaximumReliability,
    MaximumCapacity,
    LowLatency,
}

pub struct PolicyEngine {
    pub current_profile: OptimizationProfile,
}

impl PolicyEngine {
    pub fn new(profile: OptimizationProfile) -> (r: Self)
        ensures
            r.current_profile == profile,
    {
        PolicyEngine { current_profile: profile }
    }

    pub fn set_profile(&mut self, profile: OptimizationProfile)
        ensures
            final(self).current_profile == profile,
    {
        self.current_profile = profile;
    }
}

impl Default for PolicyEngine {
    /// The balanced profile.
    fn default() -> (r: Self)
        ensures
            r.current_profile == OptimizationProfile::Balanced,
    {
        Self::new(OptimizationProfile::Balanced)
    }
}

} // verus!
