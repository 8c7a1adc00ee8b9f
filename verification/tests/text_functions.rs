use rsjsonnet_lang::base64::{decode_base64, encode_base64, std_base64_decode, std_base64_decode_bytes, std_base64_string, Base64Error};
use rsjsonnet_lang::error::EvalErrorKind;
use rsjsonnet_lang::hashing::{hash_to_hex_string, std_md5, std_sha1, std_sha256, std_sha3, std_sha512};
use rsjsonnet_lang::strings::{
    ascii_lower_str, ascii_upper_str, check_int_syntax, codepoint, ends_with, equals_ignore_case, escape_string_bash,
    escape_string_dollars, escape_string_xml, find_substr, lstrip_chars, rstrip_chars, split, split_limit,
    split_limit_r, starts_with, std_char, str_replace, string_chars, strip_chars, substr, trim,
};

fn message(e: EvalErrorKind) -> String {
    match e {
        EvalErrorKind::Other { span: None, message } => message,
        other => panic!("unexpected error {other:?}"),
    }
}

#[test]
fn base64_encodes_with_padding() {
    assert_eq!(encode_base64(b""), "");
    assert_eq!(encode_base64(b"f"), "Zg==");
    assert_eq!(encode_base64(b"fo"), "Zm8=");
    assert_eq!(encode_base64(b"foo"), "Zm9v");
    assert_eq!(encode_base64(b"foobar"), "Zm9vYmFy");
}

#[test]
fn base64_round_trip() {
    for data in [&b""[..], b"a", b"ab", b"abc", b"\x00\xff\x10hello"] {
        let text: Vec<char> = encode_base64(data).chars().collect();
        assert_eq!(decode_base64(&text).unwrap(), data.to_vec());
    }
}

#[test]
fn base64_decode_errors() {
    let bad_len: Vec<char> = "abc".chars().collect();
    assert_eq!(decode_base64(&bad_len), Err(Base64Error::BadLength));
    let bad_char: Vec<char> = "ab!d".chars().collect();
    assert_eq!(decode_base64(&bad_char), Err(Base64Error::InvalidChar('!')));
    assert_eq!(
        message(std_base64_decode_bytes("abc").unwrap_err()),
        "length of base64 string is not a multiple of 4"
    );
    assert_eq!(message(std_base64_decode("ab!d").unwrap_err()), "invalid base64 character: '!'");
}

#[test]
fn std_base64_on_strings() {
    assert_eq!(std_base64_string("hello").unwrap(), "aGVsbG8=");
    assert_eq!(std_base64_string("\u{ff}").unwrap(), "/w==");
    assert_eq!(
        message(std_base64_string("\u{100}").unwrap_err()),
        "only codepoints up to 255 can be base64 encoded"
    );
    assert_eq!(std_base64_decode("aGVsbG8=").unwrap(), "hello");
    assert_eq!(std_base64_decode("/w==").unwrap(), "\u{ff}");
    assert_eq!(std_base64_decode_bytes("AP8=").unwrap(), vec![0u8, 255]);
}

#[test]
fn hashes_in_hex() {
    assert_eq!(hash_to_hex_string(&[0x00, 0x0f, 0xa0, 0xff]), "000fa0ff");
    assert_eq!(std_md5(""), "d41d8cd98f00b204e9800998ecf8427e");
    assert_eq!(std_md5("abc"), "900150983cd24fb0d6963f7d28e17f72");
    assert_eq!(std_sha1("abc"), "a9993e364706816aba3e25717850c26c9cd0d89d");
    assert_eq!(
        std_sha256("abc"),
        "ba7816bf8f01cfea414140de5dae2223b00361a396177a9cb410ff61f20015ad"
    );
    assert_eq!(std_sha512("").len(), 128);
    assert_eq!(std_sha3("").len(), 128);
    assert_eq!(
        std_sha3(""),
        "a69f73cca23a9ac5c8b567dc185a756e97c982164fe25859e0d1dcc1475c80a615b2123af1f5f94c11e3e9402c3ac558f500199d95b6d3e301758586281dcd26"
    );
}

#[test]
fn substr_clamps() {
    assert_eq!(substr("hello", 1, 3), "ell");
    assert_eq!(substr("hello", 3, 10), "lo");
    assert_eq!(substr("hello", 9, 2), "");
    assert_eq!(substr("héllo", 1, 1), "é");
    assert_eq!(substr("abc", 1, usize::MAX), "bc");
}

#[test]
fn find_substr_overlapping() {
    assert_eq!(find_substr("aa", "aaaa"), vec![0, 1, 2]);
    assert_eq!(find_substr("b", "abcb"), vec![1, 3]);
    assert_eq!(find_substr("", "abc"), Vec::<usize>::new());
    assert_eq!(find_substr("é", "aébé"), vec![1, 3]);
}

#[test]
fn prefix_and_suffix() {
    assert!(starts_with("foobar", "foo"));
    assert!(!starts_with("fo", "foo"));
    assert!(ends_with("foobar", "bar"));
    assert!(!ends_with("foobar", "foo"));
    assert!(starts_with("x", ""));
}

#[test]
fn strip_family() {
    assert_eq!(strip_chars("aaabcaa", "a"), "bc");
    assert_eq!(lstrip_chars("aaabcaa", "a"), "bcaa");
    assert_eq!(rstrip_chars("aaabcaa", "a"), "aaabc");
    assert_eq!(strip_chars("xyhixy", "yx"), "hi");
    assert_eq!(trim(" \t hello \n"), "hello");
    assert_eq!(trim("\u{a0}x\u{85}"), "x");
}

#[test]
fn case_functions() {
    assert!(equals_ignore_case("HeLLo", "hello"));
    assert!(!equals_ignore_case("hello", "hell"));
    assert!(!equals_ignore_case("É", "é"));
    assert_eq!(ascii_upper_str("abc-é"), "ABC-é");
    assert_eq!(ascii_lower_str("ABC-É"), "abc-É");
}

#[test]
fn string_chars_one_each() {
    assert_eq!(string_chars("aé"), vec!["a".to_string(), "é".to_string()]);
    assert!(string_chars("").is_empty());
}

#[test]
fn escapes() {
    assert_eq!(escape_string_bash("it's"), "'it'\"'\"'s'");
    assert_eq!(escape_string_dollars("a$b$$"), "a$$b$$$$");
    assert_eq!(escape_string_xml("<a & 'b'>\""), "&lt;a &amp; &apos;b&apos;&gt;&quot;");
}

#[test]
fn splitting() {
    assert_eq!(split("a,b,,c", ",").unwrap(), vec!["a", "b", "", "c"]);
    assert_eq!(split("abc", ",").unwrap(), vec!["abc"]);
    assert_eq!(split("aaa", "aa").unwrap(), vec!["", "a"]);
    assert_eq!(message(split("abc", "").unwrap_err()), "split delimiter is empty");
    assert_eq!(split_limit("a,b,c", ",", Some(1)).unwrap(), vec!["a", "b,c"]);
    assert_eq!(split_limit("a,b,c", ",", Some(0)).unwrap(), vec!["a,b,c"]);
    assert_eq!(split_limit("a,b,c", ",", None).unwrap(), vec!["a", "b", "c"]);
    assert_eq!(split_limit_r("a,b,c", ",", Some(1)).unwrap(), vec!["a,b", "c"]);
    assert_eq!(split_limit_r("aaa", "aa", Some(1)).unwrap(), vec!["a", ""]);
    assert_eq!(split_limit_r("a,b,c", ",", None).unwrap(), vec!["a", "b", "c"]);
}

#[test]
fn replacing() {
    assert_eq!(str_replace("aaa", "aa", "b"), "ba");
    assert_eq!(str_replace("a.b.c", ".", "::"), "a::b::c");
    assert_eq!(str_replace("ab", "", "-"), "-a-b-");
    assert_eq!(str_replace("abc", "x", "y"), "abc");
}

#[test]
fn codepoints_and_chars() {
    assert_eq!(codepoint("A").unwrap(), 65);
    assert_eq!(codepoint("é").unwrap(), 0xe9);
    assert_eq!(message(codepoint("ab").unwrap_err()), "string is not single-character");
    assert_eq!(message(codepoint("").unwrap_err()), "string is not single-character");
    assert_eq!(std_char(0x41).unwrap(), "A");
    assert_eq!(message(std_char(0xD800).unwrap_err()), "55296 is not a valid unicode codepoint");
    assert_eq!(message(std_char(0x110000).unwrap_err()), "1114112 is not a valid unicode codepoint");
}

#[test]
fn integer_syntax() {
    assert!(check_int_syntax("123").is_ok());
    assert!(check_int_syntax("-0").is_ok());
    assert_eq!(message(check_int_syntax("-").unwrap_err()), "integer without digits: \"-\"");
    assert_eq!(message(check_int_syntax("").unwrap_err()), "integer without digits: \"\"");
    assert_eq!(message(check_int_syntax("12a3").unwrap_err()), "invalid base 10: 'a'");
    assert_eq!(message(check_int_syntax("--1").unwrap_err()), "invalid base 10: '-'");
}
