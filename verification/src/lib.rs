//! A text CRDT replica: the runs of characters it holds with their
//! identities, the insertions and deletions it records and the edits it
//! sends for them, replica identifiers, the checksummed binary envelope in
//! which a replica travels over the network, and the errors that decoding
//! such an envelope can report.

pub mod encoded_replica;
pub mod replica;
pub mod run;

pub use replica::{Replica, ReplicaId};
pub use run::{Anchor, CrdtEdit, InsertionRun};

pub use encoded_replica::{checksum, sha256, Checksum, DecodeError, EncodedReplica, EncodedReplicaView, ProtocolVersion};
