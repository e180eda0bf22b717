//! The record kept for each device of a pool.
use vstd::prelude::*;

verus! {

/// The state of a device; `to_u8` gives the number stored in a record.
#[derive(Debug, Clone, Copy, PartialEq, Eq, Structural)]
pub enum DeviceState {
    Online,
    Offline,
    Failed,
    Rebuilding,
    Spare,
}

impl DeviceState {
    pub open spec fn spec_code(self) -> u8 {
        match self {
            DeviceState::Online => 0,
            DeviceState::Offline => 1,
            DeviceState::Failed => 2,
            DeviceState::Rebuilding => 3,
            DeviceState::Spare => 4,
        }
    }

    /// The number that stands for the state in a device record.
    pub fn to_u8(self) -> (r: u8)
        ensures
            r == self.spec_code(),
    {
        match self {
            DeviceState::Online => 0,
            DeviceState::Offline => 1,
            DeviceState::Failed => 2,
            DeviceState::Rebuilding => 3,
            DeviceState::Spare => 4,
        }
    }
}

#[derive(Debug, Clone, Copy)]
pub struct DeviceRecord {
    pub dev_id: u64,
    pub uuid: [u8; 16],
    pub capacity: u64,
    pub state: u8,
    pub role: u8,
    pub padding: [u8; 6],
}

} // verus!
