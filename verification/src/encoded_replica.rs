use sha2::{Digest, Sha256};
use vstd::prelude::*;

verus! {

/// The version of the binary protocol with which a replica is encoded.
pub type ProtocolVersion = u64;

/// A SHA-256 digest of the encoded bytes of a replica.
pub type Checksum = Vec<u8>;

/// The SHA-256 digest of `bytes`, as the `sha2` crate computes it.
pub uninterp spec fn sha256(bytes: Seq<u8>) -> Seq<u8>;

/// Calls `<sha2::Sha256 as sha2::Digest>::digest` on `bytes` and copies the
/// digest into a vector. Claimed of it: the result is the SHA-256 digest of
/// the input (named `sha256`) and it is 32 bytes long, the output size `U32`
/// that `Sha256` is declared with.
#[verifier::external_body]
fn sha256_digest(bytes: &[u8]) -> (digest: Vec<u8>)
    ensures
        digest@ == sha256(bytes@),
        digest@.len() == 32,
{
    Sha256::digest(bytes)[..].to_vec()
}

/// Computes the checksum of `bytes`: their SHA-256 digest.
pub fn checksum(bytes: &[u8]) -> (c: Checksum)
    ensures
        c@ == sha256(bytes@),
        c@.len() == 32,
{
    sha256_digest(bytes)
}

/// The abstract content of an [`EncodedReplica`].
pub struct EncodedReplicaView {
    pub protocol_version: ProtocolVersion,
    pub checksum: Seq<u8>,
    pub bytes: Seq<u8>,
}

/// A replica encoded into a compact binary format suitable for transmission
/// over the network: the protocol version it was encoded with, the checksum
/// of the encoded bytes, and the bytes themselves.
#[derive(Clone, PartialEq, Eq)]
pub struct EncodedReplica {
    protocol_version: ProtocolVersion,
    checksum: Checksum,
    bytes: Vec<u8>,
}

impl View for EncodedReplica {
    type V = EncodedReplicaView;

    closed spec fn view(&self) -> EncodedReplicaView {
        EncodedReplicaView {
            protocol_version: self.protocol_version,
            checksum: self.checksum@,
            bytes: self.bytes@,
        }
    }
}

impl EncodedReplica {
    /// The encoded bytes.
    pub fn bytes(&self) -> (b: &[u8])
        ensures
            b@ == self@.bytes,
    {
        self.bytes.as_slice()
    }

    /// The checksum carried with the encoded bytes.
    pub fn checksum(&self) -> (c: &Checksum)
        ensures
            c@ == self@.checksum,
    {
        &self.checksum
    }

    /// Bundles a protocol version, a checksum and the encoded bytes.
    pub fn new(protocol_version: ProtocolVersion, checksum: Checksum, bytes: Vec<u8>) -> (r: Self)
        ensures
            r@.protocol_version == protocol_version,
            r@.checksum == checksum@,
            r@.bytes == bytes@,
    {
        Self { protocol_version, checksum, bytes }
    }

    /// The protocol version the replica was encoded with.
    pub fn protocol_version(&self) -> (v: ProtocolVersion)
        ensures
            v == self@.protocol_version,
    {
        self.protocol_version
    }
}

/// The type of error that can occur when decoding an [`EncodedReplica`].
#[derive(Debug, Clone, PartialEq, Eq, Structural)]
pub enum DecodeError {
    /// The internal checksum of the [`EncodedReplica`] failed: the encoded
    /// replica was typically corrupted during transmission.
    ChecksumFailed,
    /// The machine that created the [`EncodedReplica`] and the one that is
    /// decoding it use two incompatible protocol versions.
    DifferentProtocol {
        /// The protocol version of the machine that encoded the replica.
        encoded_on: ProtocolVersion,
        /// The protocol version of the machine that is decoding it.
        decoding_on: ProtocolVersion,
    },
    /// The checksum and protocol version checks both succeeded, and yet the
    /// wrapped bytes cannot be decoded into a replica.
    InvalidData,
}

} // verus!
