use vstd::prelude::*;

use crate::address::MacAddress;

verus! {

/// One device seen during a Bluetooth scan.
#[derive(Debug)]
pub struct DeviceData {
    /// MAC-address for device
    pub address: MacAddress,
    pub name: Option<String>,
    pub rssi: i8,
}

/// The devices that one scan saw.
#[derive(Debug)]
pub struct Scan {
    /// duration in millis for scan
    pub duration: u64,
    pub devices: Vec<DeviceData>,
}

impl Scan {
    /// Turns the time stamp that a finished scan carries in `duration`
    /// (milliseconds since boot) into the time since the previous scan's
    /// stamp `prev_ms`, and gives back the stamp for the next scan.
    pub fn rebase_duration(&mut self, prev_ms: u64) -> (r: u64)
        requires
            prev_ms <= old(self).duration,
        ensures
            r == old(self).duration,
            final(self).duration == old(self).duration - prev_ms,
            final(self).devices@ == old(self).devices@,
    {
        let stamp = self.duration;
        self.duration = stamp - prev_ms;
        stamp
    }
}

} // verus!
