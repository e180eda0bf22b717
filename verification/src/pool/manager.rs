//! The devices of a pool, by id.
use crate::pool::device::{DeviceRecord, DeviceState};
use std::collections::HashMap;
use vstd::prelude::*;

verus! {

broadcast use vstd::std_specs::hash::group_hash_axioms;

pub struct MultiDeviceManager {
    devices: HashMap<u64, DeviceRecord>,
}

impl Default for MultiDeviceManager {
    fn default() -> (r: Self)
        ensures
            r.devices() == Map::<u64, DeviceRecord>::empty(),
    {
        Self::new()
    }
}

impl MultiDeviceManager {
    /// The record of each device.
    pub closed spec fn devices(self) -> Map<u64, DeviceRecord> {
        self.devices@
    }

    pub fn new() -> (r: Self)
        ensures
            r.devices() == Map::<u64, DeviceRecord>::empty(),
    {
        MultiDeviceManager { devices: HashMap::new() }
    }

    /// Adds the device, replacing any record with the same id.
    pub fn add_device(&mut self, record: DeviceRecord)
        ensures
            final(self).devices() == old(self).devices().insert(record.dev_id, record),
    {
        self.devices.insert(record.dev_id, record);
    }

    pub fn get_device(&self, dev_id: u64) -> (r: Option<&DeviceRecord>)
        ensures
            r == (if self.devices().contains_key(dev_id) {
                Some(&self.devices()[dev_id])
            } else {
                None
            }),
    {
        self.devices.get(&dev_id)
    }

    /// Records the new state of a known device; an unknown id changes
    /// nothing.
    pub fn set_device_state(&mut self, dev_id: u64, state: DeviceState)
        ensures
            final(self).devices() == (if old(self).devices().contains_key(dev_id) {
                old(self).devices().insert(
                    dev_id,
                    DeviceRecord { state: state.spec_code(), ..old(self).devices()[dev_id] },
                )
            } else {
                old(self).devices()
            }),
    {
        let current = match self.devices.get(&dev_id) {
            Some(d) => Some(*d),
            None => None,
        };
        if let Some(dev) = current {
            let updated = DeviceRecord { state: state.to_u8(), ..dev };
            self.devices.insert(dev_id, updated);
        }
    }
}

} // verus!
