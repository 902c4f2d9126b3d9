use rhyzome::codec::{decode, encode};
use rhyzome::RhyzomeError;

#[test]
fn encode_decode_round_trip() {
    let key = encode(b"likes", b"a", b"b").unwrap();
    assert_eq!(key, b"likes_a_b".to_vec());
    let (name, from, to) = decode(&key).unwrap();
    assert_eq!(name, b"likes".to_vec());
    assert_eq!(from, b"a".to_vec());
    assert_eq!(to, b"b".to_vec());
}

#[test]
fn round_trip_binary_components() {
    let name = vec![0u8, 255, 7];
    let from = vec![1u8, 2, 3];
    let to = vec![254u8];
    let key = encode(&name, &from, &to).unwrap();
    let (n, f, t) = decode(&key).unwrap();
    assert_eq!(n, name);
    assert_eq!(f, from);
    assert_eq!(t, to);
}

#[test]
fn encode_rejects_delimiter_in_component() {
    assert_eq!(
        encode(b"li_kes", b"a", b"b"),
        Err(RhyzomeError::KeyEncodingError)
    );
    assert_eq!(
        encode(b"likes", b"a_", b"b"),
        Err(RhyzomeError::KeyEncodingError)
    );
    assert_eq!(
        encode(b"likes", b"a", b"_b"),
        Err(RhyzomeError::KeyEncodingError)
    );
}

#[test]
fn encode_rejects_empty_component() {
    assert_eq!(encode(b"", b"a", b"b"), Err(RhyzomeError::KeyEncodingError));
    assert_eq!(encode(b"likes", b"", b"b"), Err(RhyzomeError::KeyEncodingError));
    assert_eq!(encode(b"likes", b"a", b""), Err(RhyzomeError::KeyEncodingError));
}

#[test]
fn decode_rejects_wrong_part_count() {
    assert_eq!(decode(b"ab"), Err(RhyzomeError::KeyDecodingError));
    assert_eq!(decode(b"a_b"), Err(RhyzomeError::KeyDecodingError));
    assert_eq!(decode(b"a_b_c_d"), Err(RhyzomeError::KeyDecodingError));
}

#[test]
fn decode_rejects_empty_part() {
    assert_eq!(decode(b"a__b"), Err(RhyzomeError::KeyDecodingError));
    assert_eq!(decode(b"_a_b"), Err(RhyzomeError::KeyDecodingError));
    assert_eq!(decode(b"a_b_"), Err(RhyzomeError::KeyDecodingError));
    assert_eq!(decode(b""), Err(RhyzomeError::KeyDecodingError));
}
