//! Verified core of a Bluetooth presence tracker: device addresses, scan
//! records, the server's device history, the tracker's RSSI window and the
//! small decision rules of the firmware.

pub mod address;
pub mod table;
pub mod scan;
pub mod server;
pub mod tracker;
pub mod connection;
pub mod seen;
pub mod sigma;
pub mod worker;
