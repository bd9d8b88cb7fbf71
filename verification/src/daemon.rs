//! The daemon's composition: which of the server, the client, and the
//! monitor run in this process.  The runtime owns the loops; this module
//! holds the mode and configuration they are built from.
use crate::config::Config;
use vstd::prelude::*;

verus! {

/// Which parts of the system this process runs.
#[derive(Clone, Copy, Debug, PartialEq, Eq, Structural)]
pub enum DaemonMode {
    /// Accept connections and aggregate updates.
    Server,
    /// Connect out and mirror the remote clipboard.
    Client,
    /// Both at once.
    Both,
}

pub struct ClipboardDaemon {
    pub config: Config,
    pub mode: DaemonMode,
}

impl ClipboardDaemon {
    pub fn new(config: Config, mode: DaemonMode) -> (r: ClipboardDaemon)
        ensures
            r.mode == mode,
    {
        ClipboardDaemon { config, mode }
    }
}

} // verus!
