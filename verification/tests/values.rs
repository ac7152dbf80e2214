//! Digests, hexadecimal and JSON text, addresses, checksums.

use reasm::builder::{ipv4, parse_ipv4};
use reasm::checksum::{fold, ones_complement, raw_sum16};
use reasm::hash::{hex, sha256, sha256_hex};
use reasm::json::{hex_decode, hex_encode, write_str, Json};
use reasm::types::{decode_hex, encode_hex, Ip};

#[test]
fn digest_vectors() {
    assert_eq!(
        sha256_hex(b""),
        "e3b0c44298fc1c149afbf4c8996fb92427ae41e4649b934ca495991b7852b855"
    );
    assert_eq!(
        sha256_hex(b"abc"),
        "ba7816bf8f01cfea414140de5dae2223b00361a396177a9cb410ff61f20015ad"
    );
    assert_eq!(sha256(b"abc").len(), 32);
    assert_eq!(hex(&[0, 255, 16]), "00ff10");
}

#[test]
fn checksum_values() {
    let words = [0x00, 0x01, 0xf2, 0x03, 0xf4, 0xf5, 0xf6, 0xf7];
    assert_eq!(raw_sum16(&words), 0x2ddf0);
    assert_eq!(fold(0x2ddf0), 0xddf2);
    assert_eq!(ones_complement(&words), 0x220d);
    assert_eq!(ones_complement(&[0x12]), 0xedff);
}

#[test]
fn json_reads_what_it_writes() {
    let mut o = Json::obj();
    o.set("b", Json::num(-12));
    o.set("a", Json::str("x\"\\\n\u{1}\u{7f51}".to_string()));
    o.set("c", Json::arr(vec![Json::Null, Json::Bool(true), Json::Real("1.5".to_string())]));
    let text = o.to_canonical();
    assert_eq!(text, "{\"a\":\"x\\\"\\\\\\n\\u0001\u{7f51}\",\"b\":-12,\"c\":[null,true,1.5]}");
    let back = Json::parse(&text).unwrap();
    assert_eq!(back.to_canonical(), text);
    assert_eq!(back.get("b").unwrap().as_num(), Some(-12));
    assert_eq!(back.get("b").unwrap().as_u64(), None);
    assert_eq!(back.get("a").unwrap().as_str(), Some("x\"\\\n\u{1}\u{7f51}"));
    assert_eq!(back.get("c").unwrap().as_arr().unwrap().len(), 3);
    assert!(back.get("d").is_none());
    assert_eq!(back.copy().to_canonical(), text);
}

#[test]
fn json_pretty_text() {
    let mut o = Json::obj();
    o.set("k", Json::arr(vec![Json::num(1)]));
    o.set("e", Json::arr(vec![]));
    assert_eq!(o.to_pretty(), "{\n  \"e\": [],\n  \"k\": [\n    1\n  ]\n}");
}

#[test]
fn json_escapes() {
    let s = |t: &str| Json::parse(t).unwrap().as_str().unwrap().to_string();
    assert_eq!(s("\"\\u0041\\u00e9\""), "A\u{e9}");
    assert_eq!(s("\"\\ud83d\\ude00\""), "\u{1f600}");
    assert_eq!(s("\"\\ud83dx\""), "\u{fffd}x");
    assert_eq!(s("\"\\udc00\""), "\u{fffd}");
    assert_eq!(s("\"\\b\\f\\/\""), "\u{8}\u{c}/");
}

#[test]
fn json_errors() {
    let e = |t: &str| Json::parse(t).err().unwrap();
    assert_eq!(e(""), "unexpected end of input");
    assert_eq!(e("[1"), "unexpected end of input");
    assert_eq!(e("nul"), "invalid literal at byte 0");
    assert_eq!(e("1 2"), "trailing data at byte 2");
    assert_eq!(e("{1:2}"), "expected string at byte 1");
    assert_eq!(e("{\"a\" 1}"), "expected ':' at byte 5");
    assert_eq!(e("[1;2]"), "unexpected ';' in array at byte 2");
    assert_eq!(e("\"\\x\""), "bad escape at byte 3");
    assert_eq!(e("\"\\u12g4\""), "bad \\u escape");
    assert_eq!(e("\"\\u12\""), "bad \\u escape");
    assert_eq!(e("1.2.3"), "invalid number '1.2.3' at byte 0");
    let cut = e("\"\\u123\u{e9}\"");
    assert_eq!(cut, std::str::from_utf8(&[b'1', b'2', b'3', 0xc3]).unwrap_err().to_string());
}

#[test]
fn json_surrogates_that_cannot_be_told() {
    assert!(Json::try_parse("\"\\ud83d\\u0041\"").is_none());
    assert!(Json::try_parse("\"\\ud83d\\u12").is_none());
    assert!(matches!(Json::try_parse("7"), Some(Ok(Json::Num(7)))));
    assert!(matches!(Json::try_parse("x"), Some(Err(_))));
}

#[test]
fn json_strings_are_quoted() {
    let mut t = "=".to_string();
    write_str("a\tb", &mut t);
    assert_eq!(t, "=\"a\\tb\"");
}

#[test]
fn json_hexadecimal() {
    assert_eq!(hex_encode(&[1, 0xab]), "01ab");
    assert_eq!(hex_decode(" 01AB\n").unwrap(), vec![1, 0xab]);
    assert_eq!(hex_decode("012").err().unwrap(), "odd-length hex string");
    assert_eq!(hex_decode("0g").err().unwrap(), "bad hex digit");
    assert_eq!(decode_hex(&encode_hex(&[0, 9, 255])).unwrap(), vec![0, 9, 255]);
}

#[test]
fn address_texts() {
    assert_eq!(ipv4(parse_ipv4("192.168.1.20")), "192.168.1.20");
    let v6 = Ip::parse("2001:db8::1").unwrap();
    assert_eq!(v6.to_text(), "2001:db8::1");
    assert_eq!(Ip::parse("10.0.0.1").unwrap(), Ip::V4([10, 0, 0, 1]));
    assert!(Ip::parse("10.0.0.256").is_err());
}
