use vstd::prelude::*;

verus! {

/// A scanning worker.
pub struct Worker {}

/// What a worker is doing.
pub enum WorkerState {
    /// worker is sharing data to server
    Sharing(),
    /// worker collecting info about closest devices
    Searching(),
}

/// The data to search
pub struct SearchSample {}

/// The page that lists the devices and their scores.
pub struct ScoreTablePage {}

} // verus!
