use itools::base64::decode_base64_bytes;
use itools::base64::encode_base64;

#[test]
fn encode_produces_standard_padded_base64() {
    assert_eq!("", encode_base64(&vec![]));
    assert_eq!("AA==", encode_base64(&vec![0x00]));
    assert_eq!("AQ==", encode_base64(&vec![0x01]));
    assert_eq!("/w==", encode_base64(&vec![0xff]));
    assert_eq!("TWFu", encode_base64(&b"Man".to_vec()));
    assert_eq!("TWE=", encode_base64(&b"Ma".to_vec()));
}

#[test]
fn decode_undoes_encode_at_every_padding_length() {
    for bytes in [
        vec![],
        vec![7u8],
        vec![1u8, 2],
        vec![1u8, 2, 3],
        vec![1u8, 2, 3, 4],
        vec![0u8, 255, 128, 64, 32, 16, 8, 4],
    ] {
        let text = encode_base64(&bytes);
        let back = decode_base64_bytes(&text.into_bytes()).expect("round trip decodes");
        assert_eq!(bytes, back);
    }
}

#[test]
fn malformed_base64_is_refused() {
    assert_eq!(None, decode_base64_bytes(&b"AB".to_vec()));
    assert_eq!(None, decode_base64_bytes(&b"A!==".to_vec()));
    assert_eq!(None, decode_base64_bytes(&b"AAAAA".to_vec()));
}
