//! The command surface: each subcommand is a thin caller over the library.
use vstd::prelude::*;

verus! {

pub struct Args {
    pub command: Commands,
}

pub enum Commands {
    /// Decode a bencoded value given on the command line.
    Decode { value: String },
    /// Show the tracker URL, content hash and piece hashes of a torrent.
    Info { torrent: String },
    /// List the peers the tracker hands out.
    Peers { torrent: String },
    /// Handshake with one peer, `ip:port`.
    Handshake { torrent: String, peer: String },
    /// Download piece `piece` into `output`.
    DownloadPiece { output: String, torrent: String, piece: usize },
    /// Download the first piece into `output_file`.
    Download { output_file: String, torrent: String },
}

} // verus!
