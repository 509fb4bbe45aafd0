//! Core of a minimal swarm-download client: the bencode codec, the torrent
//! metadata model, the peer handshake, the framing of peer messages and the
//! state machine that downloads and verifies one piece.
use vstd::prelude::*;

pub mod args;
pub mod bencode;
pub mod digest;
pub mod download;
pub mod framer;
pub mod handshake;
pub mod message;
pub mod metainfo;
pub mod tracker;
pub mod wire;

pub use args::{Args, Commands};
pub use bencode::{decode, encode, BencodeValue, DecodeError, Dict};
pub use download::{DownloadError, PieceDownload, Step, BLOCK_SIZE};
pub use framer::{MessageFramer, MAX_FRAME_LEN};
pub use handshake::{Handshake, HandshakeError};
pub use message::{Message, MessageTag, ProtocolError, RawMessage};
pub use metainfo::{Hashes, Info, MetainfoError, Torrent, TorrentError};
pub use tracker::{PeerAddress, TrackerError, TrackerRequest, TrackerResponse};

verus! {

} // verus!
