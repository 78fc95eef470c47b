//! The settings a run is started with.

use vstd::prelude::*;

verus! {

/// The settings of a run.
#[derive(Debug)]
pub struct Args {
    /// Name of the torrent file to download.
    pub torrent: String,
    /// Maximum number of peer connections to maintain.
    pub max_connections: usize,
    /// Port to listen on.
    pub port: u16,
    /// Continue seeding after the file has been downloaded.
    pub seed: bool,
    /// Seed a file that exists, rather than download it first.
    pub seed_existing: bool,
    /// Number of outstanding requests to have per peer.
    pub pipeline_depth: usize,
    /// Number of seconds to wait for a block before dropping the peer.
    pub request_timeout: u64,
    /// Skip the tracker, and accept only connections made by hand.
    pub skip_announce: bool,
    /// A single peer to connect to at the start, as `host:port`.
    pub add_peer: Option<String>,
}

impl Args {
    /// The settings for `torrent` listening on `port`, all else as it is
    /// when nothing is said: ten connections, ten requests per peer, twelve
    /// seconds for a block, no seeding, the tracker in use.
    pub fn new(torrent: String, port: u16) -> (r: Args)
        ensures
            r.torrent == torrent,
            r.port == port,
            r.max_connections == 10,
            r.pipeline_depth == 10,
            r.request_timeout == 12,
            !r.seed,
            !r.seed_existing,
            !r.skip_announce,
            r.add_peer is None,
    {
        Args {
            torrent,
            max_connections: 10,
            port,
            seed: false,
            seed_existing: false,
            pipeline_depth: 10,
            request_timeout: 12,
            skip_announce: false,
            add_peer: None,
        }
    }

    /// Whether the run ends once the file is complete.
    pub fn leaves_when_done(&self) -> (r: bool)
        ensures
            r == (!self.seed && !self.seed_existing),
    {
        !self.seed && !self.seed_existing
    }
}

} // verus!
