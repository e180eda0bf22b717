//! Error and latency counters of a device.
use vstd::prelude::*;

verus! {

pub struct DeviceHealthStats {
    pub read_errors: u64,
    pub write_errors: u64,
    pub checksum_errors: u64,
    pub read_latency_ms: u32,
    pub write_latency_ms: u32,
    pub temperature_c: i8,
}

impl Default for DeviceHealthStats {
    /// No errors or latency yet, at 40 degrees.
    fn default() -> (r: Self)
        ensures
            r.read_errors == 0,
            r.write_errors == 0,
            r.checksum_errors == 0,
            r.read_latency_ms == 0,
            r.write_latency_ms == 0,
            r.temperature_c == 40,
    {
        DeviceHealthStats {
            read_errors: 0,
            write_errors: 0,
            checksum_errors: 0,
            read_latency_ms: 0,
            write_latency_ms: 0,
            temperature_c: 40,
        }
    }
}

} // verus!
