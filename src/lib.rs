//! Multi-protocol commitments: many independent (protocol, message) pairs
//! bound into one Merkle tree whose root is tag-hashed into a commitment id,
//! and blinded transaction outpoints.

pub mod blind;
pub mod digest;
pub mod position;
pub mod tree;

pub use blind::{OutpointHash, OutpointReveal};
pub use digest::{merklize, sha256, tag_hash};
pub use position::{protocol_id_pos, Message, ProtocolId};
pub use tree::{Error, MerkleTree, MultiSource, MAX_DEPTH, MERKLE_TAG, TAG};
