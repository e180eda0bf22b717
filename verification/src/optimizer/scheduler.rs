//! Background maintenance that runs only while the system is idle.
use vstd::prelude::*;

verus! {

pub struct AutonomousScheduler {
    pub is_active: bool,
}

impl AutonomousScheduler {
    pub fn new() -> (r: Self)
        ensures
            r.is_active,
    {
        AutonomousScheduler { is_active: true }
    }

    /// Whether background work may run now.
    pub open spec fn may_run(self, is_system_idle: bool) -> bool {
        self.is_active && is_system_idle
    }

    /// Queues the background tasks when the scheduler is active and the
    /// system idle; no task exists yet, so nothing is queued either way.
    pub fn schedule_background_tasks(&self, is_system_idle: bool) {
        if !self.is_active || !is_system_idle {
            return;
        }
    }
}

} // verus!
