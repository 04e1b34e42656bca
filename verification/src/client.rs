//! Client-side configuration and errors.  The download session itself —
//! binding a listening socket, announcing over HTTP, spawning workers —
//! lives outside this library and calls in for every decision.

use crate::tracker::TrackerError;
use vstd::prelude::*;

verus! {

/// A failure of the download session.
#[derive(Debug)]
pub enum ClientError {
    /// The tracker announce failed.
    PeersRetrieve(TrackerError),
    /// The inbound listening socket could not be opened.
    InboundConnection(String),
}

/// Session configuration: how many worker connections to run.
#[derive(Debug, Default)]
pub struct Config {
    /// The number of peer connections the session may hold at once.
    pub connection_numbers: usize,
}

impl Config {
    /// A configuration over a positive worker count.  A zero count is a
    /// configuration error and must be rejected before this call.
    pub fn new(connection_numbers: usize) -> (r: Self)
        requires
            connection_numbers > 0,
        ensures
            r.connection_numbers == connection_numbers,
    {
        Config { connection_numbers }
    }
}

/// A unit of download work handed to a worker.
pub struct Task {}

} // verus!
