use base64::prelude::BASE64_STANDARD;
use base64::Engine;
use psm::codec::{decode_base64, Base64Error};
use psm::password::Password;
use psm::text::{decimal_text, hex_text, str_equal};

#[test]
fn value_is_base64_of_nonce_and_data() {
    let mut p = Password::new("n".to_string(), "d".to_string(), "t".to_string());
    p.set_value(b"llo".to_vec(), b"he");
    assert_eq!(p.value, "aGVsbG8=");
    assert_eq!(p.name, "n");
    assert!(!p.is_enc());
    let d = Password::default();
    assert_eq!(d.value, "");
    assert!(!d.is_enc);
}

#[test]
fn base64_decoding() {
    assert_eq!(decode_base64("aGVsbG8=").unwrap(), b"hello".to_vec());
    assert_eq!(decode_base64("").unwrap(), Vec::<u8>::new());
    assert_eq!(decode_base64("AAAA").unwrap(), vec![0, 0, 0]);
}

fn crate_message(text: &str) -> String {
    BASE64_STANDARD.decode(text).unwrap_err().to_string()
}

#[test]
fn base64_error_messages() {
    for text in ["!!!!", "Q", "QQ", "QR==", "QQ=", "aGVsbG8", "a===", "aGVs\nbG8="] {
        let e = decode_base64(text).unwrap_err();
        assert_eq!(e.message(), crate_message(text), "for {:?}", text);
    }
    assert_eq!(decode_base64("!!!!").unwrap_err(), Base64Error::InvalidByte(0, 33));
    assert_eq!(Base64Error::InvalidByte(3, 255).message(), "Invalid symbol 255, offset 3.");
    assert_eq!(Base64Error::InvalidLength(5).message(), "Invalid input length: 5");
    assert_eq!(Base64Error::InvalidLastSymbol(10, 82).message(), "Invalid last symbol 82, offset 10.");
    assert_eq!(Base64Error::InvalidPadding.message(), "Invalid padding");
}

#[test]
fn decimal_and_hex() {
    assert_eq!(decimal_text(0), "0");
    assert_eq!(decimal_text(7), "7");
    assert_eq!(decimal_text(1234), "1234");
    assert_eq!(decimal_text(usize::MAX), usize::MAX.to_string());
    assert_eq!(hex_text(&[0x0f, 0xa0, 0x00, 0xff]), "0fa000ff");
    assert_eq!(hex_text(&[]), "");
}

#[test]
fn string_equality() {
    assert!(str_equal("abc", "abc"));
    assert!(!str_equal("abc", "abd"));
    assert!(!str_equal("abc", "ab"));
    assert!(str_equal("", ""));
    assert!(str_equal("äö", "äö"));
}
