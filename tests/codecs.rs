use build_an_index::base64::{base64_decode, base64_encode};
use build_an_index::codec::compare_bytes;
use build_an_index::hex::{decode, encode, hex_char_to_nibble};
use std::cmp::Ordering;

#[test]
fn test_hex_encode_decode() {
    let plain = b"hello world";
    let encoded = encode(plain);
    let decoded = decode(&encoded).unwrap();
    assert_eq!(decoded, plain);
}

#[test]
fn hex_encode_exact() {
    assert_eq!(encode(b"hello"), "68656c6c6f");
    assert_eq!(encode(&[0x00, 0xff, 0x0a]), "00ff0a");
    assert_eq!(encode(&[]), "");
}

#[test]
fn hex_decode_cases() {
    assert_eq!(decode("00FFa0"), Some(vec![0x00, 0xff, 0xa0]));
    assert_eq!(decode("abc"), None);
    assert_eq!(decode("zz"), None);
    assert_eq!(decode(""), Some(vec![]));
    assert_eq!(hex_char_to_nibble(b'F'), Some(15));
    assert_eq!(hex_char_to_nibble(b'g'), None);
}

#[test]
fn base64_encode_exact() {
    assert_eq!(base64_encode(b""), "");
    assert_eq!(base64_encode(b"f"), "Zg==");
    assert_eq!(base64_encode(b"fo"), "Zm8=");
    assert_eq!(base64_encode(b"foo"), "Zm9v");
    assert_eq!(base64_encode(b"foobar"), "Zm9vYmFy");
    assert_eq!(base64_encode(&[0xfb, 0xff]), "+/8=");
}

#[test]
fn base64_decode_cases() {
    assert_eq!(base64_decode("Zm9vYmFy"), Some(b"foobar".to_vec()));
    assert_eq!(base64_decode("Zg=="), Some(b"f".to_vec()));
    assert_eq!(base64_decode("Zm8="), Some(b"fo".to_vec()));
    assert_eq!(base64_decode("Zm9"), None);
    assert_eq!(base64_decode("Zm9*"), None);
    assert_eq!(base64_decode(""), Some(vec![]));
}

#[test]
fn base64_round_trip_all_bytes() {
    let data: Vec<u8> = (0..=255u8).collect();
    for n in 0..data.len() {
        assert_eq!(base64_decode(&base64_encode(&data[..n])), Some(data[..n].to_vec()));
    }
}

#[test]
fn compare_bytes_is_lexicographic() {
    assert_eq!(compare_bytes(b"abc", b"abd"), Ordering::Less);
    assert_eq!(compare_bytes(b"ab", b"abc"), Ordering::Less);
    assert_eq!(compare_bytes(b"b", b"abc"), Ordering::Greater);
    assert_eq!(compare_bytes(b"", b""), Ordering::Equal);
    assert_eq!(compare_bytes(&[0xff], &[0x00, 0x01]), Ordering::Greater);
}
