use icon_swap::IconError;
use icon_swap::codec::{base64_decode, base64_encode, strip_data_url_prefix};

#[test]
fn decode_plain_base64() {
    assert_eq!(base64_decode("aGVsbG8=").unwrap(), b"hello".to_vec());
    assert_eq!(base64_decode("").unwrap(), Vec::<u8>::new());
}

#[test]
fn decode_strips_data_url_prefix() {
    let with_prefix = base64_decode("data:image/jpeg;base64,aGVsbG8=").unwrap();
    let without_prefix = base64_decode("aGVsbG8=").unwrap();
    assert_eq!(with_prefix, without_prefix);
}

#[test]
fn decode_splits_at_first_comma_only() {
    // Everything before the first comma is discarded, whatever it reads.
    assert_eq!(base64_decode("anything,aGVsbG8=").unwrap(), b"hello".to_vec());
    // A second comma stays in the payload and makes it malformed.
    assert_eq!(
        base64_decode("first,second,aGVsbG8=").unwrap_err(),
        IconError::DecodeError
    );
}

#[test]
fn decode_rejects_malformed_payload() {
    let err = base64_decode("not base64!").unwrap_err();
    assert_eq!(err, IconError::DecodeError);
    assert_eq!(err.message(), "Failed to decode image data");
    // Incorrect padding is rejected too.
    assert!(base64_decode("aGVsbG8").is_err());
}

#[test]
fn prefix_split_behaviour() {
    assert_eq!(strip_data_url_prefix("data:image/png;base64,QUJD"), "QUJD");
    assert_eq!(strip_data_url_prefix("no comma here"), "no comma here");
    assert_eq!(strip_data_url_prefix("a,b,c"), "b,c");
    assert_eq!(strip_data_url_prefix(","), "");
}

#[test]
fn encode_then_decode_round_trips() {
    let cases: Vec<Vec<u8>> = vec![
        Vec::new(),
        vec![0],
        vec![255],
        vec![1, 2, 3],
        vec![0, 127, 128, 255, 44, 61],
        (0u16..=255).map(|b| b as u8).collect(),
    ];
    for bytes in cases {
        let encoded = base64_encode(&bytes);
        assert_eq!(base64_decode(&encoded).unwrap(), bytes);
    }
}

#[test]
fn encode_known_vector() {
    assert_eq!(base64_encode(&b"hello".to_vec()), "aGVsbG8=");
}
