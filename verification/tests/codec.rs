use blog_server::base64::decode;
use blog_server::http::{hexval, percent_decode};
use blog_server::sha256::{sha256_hex, to_hex};

#[test]
fn base64_decodes_padded_text() {
    assert_eq!(decode("aGVsbG8="), Some(b"hello".to_vec()));
    assert_eq!(decode("aGVsbA=="), Some(b"hell".to_vec()));
    assert_eq!(decode("aGVs"), Some(b"hel".to_vec()));
}

#[test]
fn base64_accepts_missing_padding() {
    assert_eq!(decode("aGVsbG8"), Some(b"hello".to_vec()));
    assert_eq!(decode("aGVsbA"), Some(b"hell".to_vec()));
}

#[test]
fn base64_padding_only_at_the_end() {
    assert_eq!(decode("a=b=c=d="), None);
    assert_eq!(decode("QQ=A"), None);
    assert_eq!(decode("QQ==="), None);
    assert_eq!(decode("QQ=="), Some(vec![0x41]));
    assert_eq!(decode("QUI="), Some(vec![0x41, 0x42]));
    assert_eq!(decode("abcd"), Some(vec![105, 183, 29]));
}

#[test]
fn base64_refuses_bad_input() {
    assert_eq!(decode("a"), None);
    assert_eq!(decode("abcde"), None);
    assert_eq!(decode("ab!d"), None);
    assert_eq!(decode("aGVs bG8="), None);
    assert_eq!(decode("é"), None);
}

#[test]
fn base64_empty_is_empty() {
    assert_eq!(decode(""), Some(Vec::new()));
    assert_eq!(decode("=="), Some(Vec::new()));
    assert_eq!(decode("===="), None);
}

#[test]
fn base64_full_alphabet() {
    assert_eq!(decode("+/+/"), Some(vec![0xfb, 0xff, 0xbf]));
    assert_eq!(decode("AAAA"), Some(vec![0, 0, 0]));
    assert_eq!(decode("////"), Some(vec![255, 255, 255]));
}

#[test]
fn law_decode_encode_on_samples() {
    // RFC 4648 test vectors
    let vectors: [(&str, &str); 7] = [
        ("", ""),
        ("f", "Zg=="),
        ("fo", "Zm8="),
        ("foo", "Zm9v"),
        ("foob", "Zm9vYg=="),
        ("fooba", "Zm9vYmE="),
        ("foobar", "Zm9vYmFy"),
    ];
    for (plain, encoded) in vectors {
        assert_eq!(decode(encoded), Some(plain.as_bytes().to_vec()));
    }
    assert_eq!(decode("YWRtaW46YWJj"), Some(b"admin:abc".to_vec()));
}

#[test]
fn hexval_digits() {
    assert_eq!(hexval(b'0'), Some(0));
    assert_eq!(hexval(b'9'), Some(9));
    assert_eq!(hexval(b'a'), Some(10));
    assert_eq!(hexval(b'F'), Some(15));
    assert_eq!(hexval(b'g'), None);
    assert_eq!(hexval(b'%'), None);
}

#[test]
fn percent_decode_escapes() {
    assert_eq!(percent_decode("a%20b"), Some("a b".to_string()));
    assert_eq!(percent_decode("%41"), Some("A".to_string()));
    assert_eq!(percent_decode("%E4%BD%A0"), Some("你".to_string()));
    assert_eq!(percent_decode("plain"), Some("plain".to_string()));
    assert_eq!(percent_decode(""), Some(String::new()));
}

#[test]
fn percent_decode_refuses_malformed() {
    assert_eq!(percent_decode("%zz"), None);
    assert_eq!(percent_decode("abc%4"), None);
    assert_eq!(percent_decode("%"), None);
    assert_eq!(percent_decode("%FF"), None);
}

#[test]
fn sha256_known_digests() {
    assert_eq!(sha256_hex(b"abc"), "ba7816bf8f01cfea414140de5dae2223b00361a396177a9cb410ff61f20015ad");
    assert_eq!(sha256_hex(b""), "e3b0c44298fc1c149afbf4c8996fb92427ae41e4649b934ca495991b7852b855");
}

#[test]
fn hex_text() {
    assert_eq!(to_hex(&[0, 255, 16, 0xab]), "00ff10ab");
    assert_eq!(to_hex(&[]), "");
}

#[test]
fn law_percent_decode_round_trip_on_samples() {
    assert_eq!(percent_decode("plain text/é"), Some("plain text/é".to_string()));
    assert_eq!(percent_decode("%63%61%66%C3%A9"), Some("café".to_string()));
    assert_eq!(percent_decode("%63%61%66%c3%a9"), Some("café".to_string()));
    let s = "a b%&é";
    let enc: String = s.bytes().map(|b| format!("%{:02X}", b)).collect();
    assert_eq!(percent_decode(&enc), Some(s.to_string()));
}
