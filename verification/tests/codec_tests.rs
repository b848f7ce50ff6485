use hypervector::binary_hdv::BinaryHDV;
use hypervector::bipolar_hdv::BipolarHDV;
use hypervector::codec::{
    read_hypervectors_binary, read_hypervectors_bipolar, write_hypervectors_binary,
    write_hypervectors_bipolar, DecodeError,
};
use mersenne_twister_rs::MersenneTwister;

#[test]
fn binary_vector_bytes_round_trip() {
    let v = BinaryHDV { data: vec![0x0123_4567_89ab_cdef, 42] };
    let bytes = v.to_bytes();
    assert_eq!(bytes.len(), 16);
    // little-endian, low word first
    assert_eq!(&bytes[0..8], &[0xef, 0xcd, 0xab, 0x89, 0x67, 0x45, 0x23, 0x01]);
    let back = BinaryHDV::from_bytes(&bytes, 2);
    assert_eq!(back, v);
}

#[test]
fn bipolar_vector_bytes_round_trip() {
    let v = BipolarHDV::from_slice(&[1, -1, -1, 1]);
    let bytes = v.to_bytes();
    assert_eq!(bytes, vec![1, 255, 255, 1]);
    let back = BipolarHDV::from_bytes(&bytes).unwrap();
    assert_eq!(back, v);
}

#[test]
fn bipolar_vector_bytes_reject_illegal_sign() {
    assert_eq!(BipolarHDV::from_bytes(&[1, 7, 255]), Err(DecodeError::InvalidComponent));
}

#[test]
fn binary_collection_round_trip() {
    let mut rng = MersenneTwister::new(5);
    let vs = vec![
        BinaryHDV::random(&mut rng, 4),
        BinaryHDV::random(&mut rng, 4),
        BinaryHDV::random(&mut rng, 4),
    ];
    let bytes = write_hypervectors_binary(&vs);
    assert_eq!(bytes.len(), 8 + 3 * 4 * 8);
    assert_eq!(&bytes[0..8], &[3, 0, 0, 0, 0, 0, 0, 0]);
    let back = read_hypervectors_binary(&bytes, 4).unwrap();
    assert_eq!(back, vs);
}

#[test]
fn binary_collection_rejects_truncation() {
    let vs = vec![BinaryHDV { data: vec![1, 2] }, BinaryHDV { data: vec![3, 4] }];
    let bytes = write_hypervectors_binary(&vs);
    assert_eq!(
        read_hypervectors_binary(&bytes[..bytes.len() - 1], 2),
        Err(DecodeError::Truncated)
    );
    assert_eq!(read_hypervectors_binary(&bytes[..4], 2), Err(DecodeError::Truncated));
    // a count promising more records than the stream holds
    let mut forged = bytes.clone();
    forged[0] = 9;
    assert_eq!(read_hypervectors_binary(&forged, 2), Err(DecodeError::Truncated));
}

#[test]
fn binary_collection_ignores_trailing_bytes() {
    let vs = vec![BinaryHDV { data: vec![7] }];
    let mut bytes = write_hypervectors_binary(&vs);
    bytes.push(0xaa);
    let back = read_hypervectors_binary(&bytes, 1).unwrap();
    assert_eq!(back, vs);
}

#[test]
fn bipolar_collection_round_trip() {
    let mut rng = MersenneTwister::new(6);
    let vs = vec![BipolarHDV::random(&mut rng, 9), BipolarHDV::random(&mut rng, 9)];
    let bytes = write_hypervectors_bipolar(&vs);
    assert_eq!(bytes.len(), 8 + 2 * 9);
    let back = read_hypervectors_bipolar(&bytes, 9).unwrap();
    assert_eq!(back, vs);
}

#[test]
fn bipolar_collection_rejects_bad_bytes() {
    let vs = vec![BipolarHDV::from_slice(&[1, 1, -1])];
    let mut bytes = write_hypervectors_bipolar(&vs);
    assert_eq!(
        read_hypervectors_bipolar(&bytes[..bytes.len() - 1], 3),
        Err(DecodeError::Truncated)
    );
    bytes[9] = 0;
    assert_eq!(read_hypervectors_bipolar(&bytes, 3), Err(DecodeError::InvalidComponent));
}

#[test]
fn empty_collections_round_trip() {
    let none: Vec<BinaryHDV> = Vec::new();
    let bytes = write_hypervectors_binary(&none);
    assert_eq!(bytes, vec![0; 8]);
    assert_eq!(read_hypervectors_binary(&bytes, 3).unwrap(), none);

    let snone: Vec<BipolarHDV> = Vec::new();
    let sbytes = write_hypervectors_bipolar(&snone);
    assert_eq!(read_hypervectors_bipolar(&sbytes, 3).unwrap(), snone);
}
