use cola::{checksum, DecodeError, EncodedReplica};

fn hex(bytes: &[u8]) -> String {
    bytes.iter().map(|b| format!("{:02x}", b)).collect()
}

#[test]
fn checksum_of_empty_input_is_sha256_of_empty() {
    let c = checksum(&[]);
    assert_eq!(hex(&c), "e3b0c44298fc1c149afbf4c8996fb92427ae41e4649b934ca495991b7852b855");
}

#[test]
fn checksum_of_abc_is_sha256_of_abc() {
    let c = checksum(b"abc");
    assert_eq!(hex(&c), "ba7816bf8f01cfea414140de5dae2223b00361a396177a9cb410ff61f20015ad");
}

#[test]
fn checksum_is_32_bytes_long() {
    for input in [&b""[..], b"a", b"hello world", &[0u8; 1000][..]] {
        assert_eq!(checksum(input).len(), 32);
    }
}

#[test]
fn checksum_is_deterministic() {
    let data = vec![1u8, 2, 3, 4, 5];
    assert_eq!(checksum(&data), checksum(&data.clone()));
}

#[test]
fn checksum_tells_different_inputs_apart() {
    assert_ne!(checksum(b"hello"), checksum(b"hellp"));
}

#[test]
fn encoded_replica_gives_back_its_parts() {
    let bytes = vec![10u8, 20, 30];
    let c = checksum(&bytes);
    let encoded = EncodedReplica::new(7, c.clone(), bytes.clone());
    assert_eq!(encoded.protocol_version(), 7);
    assert_eq!(encoded.checksum(), &c);
    assert_eq!(encoded.bytes(), &bytes[..]);
}

#[test]
fn encoded_replica_with_empty_parts() {
    let encoded = EncodedReplica::new(0, Vec::new(), Vec::new());
    assert_eq!(encoded.protocol_version(), 0);
    assert!(encoded.checksum().is_empty());
    assert!(encoded.bytes().is_empty());
}

#[test]
fn encoded_replica_clone_is_equal() {
    let encoded = EncodedReplica::new(u64::MAX, vec![1, 2], vec![3]);
    let cloned = encoded.clone();
    assert!(cloned == encoded);
    assert_eq!(cloned.protocol_version(), u64::MAX);
    assert!(EncodedReplica::new(1, vec![1, 2], vec![3]) != encoded);
}

#[test]
fn decode_error_variants() {
    let a = DecodeError::ChecksumFailed;
    let b = DecodeError::DifferentProtocol { encoded_on: 1, decoding_on: 2 };
    let c = DecodeError::InvalidData;
    assert_eq!(a.clone(), DecodeError::ChecksumFailed);
    assert_eq!(b.clone(), DecodeError::DifferentProtocol { encoded_on: 1, decoding_on: 2 });
    assert_ne!(b, DecodeError::DifferentProtocol { encoded_on: 2, decoding_on: 1 });
    assert_eq!(c.clone(), DecodeError::InvalidData);
    assert_ne!(a, c);
    assert_eq!(format!("{:?}", a), "ChecksumFailed");
}
