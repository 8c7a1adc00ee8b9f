//! The hash functions of the standard library: a digest of the UTF-8 bytes
//! of a string, written in lower-case hexadecimal.

use vstd::prelude::*;
use vstd::utf8::encode_utf8;
use crate::manifest::hex_digit_lower;
use crate::text::string_from_chars;

verus! {

/// The MD5 digest of some bytes.
pub uninterp spec fn md5_of(data: Seq<u8>) -> Seq<u8>;

/// The SHA-1 digest of some bytes.
pub uninterp spec fn sha1_of(data: Seq<u8>) -> Seq<u8>;

/// The SHA-256 digest of some bytes.
pub uninterp spec fn sha256_of(data: Seq<u8>) -> Seq<u8>;

/// The SHA-512 digest of some bytes.
pub uninterp spec fn sha512_of(data: Seq<u8>) -> Seq<u8>;

/// The SHA3-512 digest of some bytes.
pub uninterp spec fn sha3_512_of(data: Seq<u8>) -> Seq<u8>;

/// The MD5 digest of `data` (`md5::Md5::digest`): its 16 bytes are named,
/// not stated.
#[verifier::external_body]
fn md5_digest(data: &[u8]) -> (res: Vec<u8>)
    ensures
        res@ == md5_of(data@),
        res@.len() == 16,
{
    <md5::Md5 as md5::Digest>::digest(data).to_vec()
}

/// The SHA-1 digest of `data` (`sha1::Sha1::digest`): its 20 bytes are
/// named, not stated.
#[verifier::external_body]
fn sha1_digest(data: &[u8]) -> (res: Vec<u8>)
    ensures
        res@ == sha1_of(data@),
        res@.len() == 20,
{
    <sha1::Sha1 as sha1::Digest>::digest(data).to_vec()
}

/// The SHA-256 digest of `data` (`sha2::Sha256::digest`): its 32 bytes are
/// named, not stated.
#[verifier::external_body]
fn sha256_digest(data: &[u8]) -> (res: Vec<u8>)
    ensures
        res@ == sha256_of(data@),
        res@.len() == 32,
{
    <sha2::Sha256 as sha2::Digest>::digest(data).to_vec()
}

/// The bytes of the text `hello world`.
pub open spec fn hello_world_bytes() -> Seq<u8> {
    seq![104u8, 101, 108, 108, 111, 32, 119, 111, 114, 108, 100]
}

/// The SHA-512 digest of `hello world`, as the documentation of `sha2`
/// gives it.
pub open spec fn sha512_hello_world() -> Seq<u8> {
    seq![
        0x30u8, 0x9e, 0xcc, 0x48, 0x9c, 0x12, 0xd6, 0xeb, 0x4c, 0xc4, 0x0f, 0x50, 0xc9, 0x02, 0xf2, 0xb4,
        0xd0, 0xed, 0x77, 0xee, 0x51, 0x1a, 0x7c, 0x7a, 0x9b, 0xcd, 0x3c, 0xa8, 0x6d, 0x4c, 0xd8, 0x6f,
        0x98, 0x9d, 0xd3, 0x5b, 0xc5, 0xff, 0x49, 0x96, 0x70, 0xda, 0x34, 0x25, 0x5b, 0x45, 0xb0, 0xcf,
        0xd8, 0x30, 0xe8, 0x1f, 0x60, 0x5d, 0xcf, 0x7d, 0xc5, 0x54, 0x2e, 0x93, 0xae, 0x9c, 0xd7, 0x6f,
    ]
}

/// The SHA-512 digest of `data` (`sha2::Sha512::digest`): its 64 bytes are
/// named, not stated, but for the one input whose digest the crate's
/// documentation shows (`hello world`), where they are that digest.
#[verifier::external_body]
fn sha512_digest(data: &[u8]) -> (res: Vec<u8>)
    ensures
        res@ == sha512_of(data@),
        res@.len() == 64,
        data@ == hello_world_bytes() ==> res@ == sha512_hello_world(),
{
    <sha2::Sha512 as sha2::Digest>::digest(data).to_vec()
}

/// The SHA3-512 digest of `data` (`sha3::Sha3_512::digest`): its 64 bytes
/// are named, not stated.
#[verifier::external_body]
fn sha3_512_digest(data: &[u8]) -> (res: Vec<u8>)
    ensures
        res@ == sha3_512_of(data@),
        res@.len() == 64,
{
    <sha3::Sha3_512 as sha3::Digest>::digest(data).to_vec()
}

/// Bytes in lower-case hexadecimal, two digits each.
pub open spec fn hex_of_bytes(b: Seq<u8>) -> Seq<char>
    decreases b.len(),
{
    if b.len() == 0 {
        seq![]
    } else {
        hex_of_bytes(b.drop_last()) + seq![
            hex_digit_lower((b.last() / 16) as u32),
            hex_digit_lower((b.last() % 16) as u32),
        ]
    }
}

fn hex_lower_digit(d: u8) -> (res: char)
    requires
        d < 16,
    ensures
        res == hex_digit_lower(d as u32),
{
    if d < 10 {
        (48 + d) as char
    } else {
        (87 + d) as char
    }
}

/// Bytes in lower-case hexadecimal, two digits each.
pub fn hash_to_hex_string(hash: &[u8]) -> (res: String)
    ensures
        res@ == hex_of_bytes(hash@),
{
    let mut out: Vec<char> = Vec::new();
    let mut i: usize = 0;
    while i < hash.len()
        invariant
            0 <= i <= hash@.len(),
            out@ == hex_of_bytes(hash@.subrange(0, i as int)),
        decreases hash@.len() - i,
    {
        let b = hash[i];
        out.push(hex_lower_digit(b / 16));
        out.push(hex_lower_digit(b % 16));
        proof {
            let sub = hash@.subrange(0, i + 1);
            assert(sub.drop_last() =~= hash@.subrange(0, i as int));
        }
        i += 1;
    }
    proof {
        assert(hash@.subrange(0, i as int) =~= hash@);
    }
    string_from_chars(out.as_slice())
}

/// The MD5 digest of the UTF-8 bytes of a string, in hexadecimal (`std.md5`).
pub fn std_md5(s: &str) -> (res: String)
    ensures
        res@ == hex_of_bytes(md5_of(encode_utf8(s@))),
{
    let hash = md5_digest(s.as_bytes());
    hash_to_hex_string(hash.as_slice())
}

/// The SHA-1 digest of the UTF-8 bytes of a string, in hexadecimal (`std.sha1`).
pub fn std_sha1(s: &str) -> (res: String)
    ensures
        res@ == hex_of_bytes(sha1_of(encode_utf8(s@))),
{
    let hash = sha1_digest(s.as_bytes());
    hash_to_hex_string(hash.as_slice())
}

/// The SHA-256 digest of the UTF-8 bytes of a string, in hexadecimal (`std.sha256`).
pub fn std_sha256(s: &str) -> (res: String)
    ensures
        res@ == hex_of_bytes(sha256_of(encode_utf8(s@))),
{
    let hash = sha256_digest(s.as_bytes());
    hash_to_hex_string(hash.as_slice())
}

/// The SHA-512 digest of the UTF-8 bytes of a string, in hexadecimal (`std.sha512`).
pub fn std_sha512(s: &str) -> (res: String)
    ensures
        res@ == hex_of_bytes(sha512_of(encode_utf8(s@))),
        encode_utf8(s@) == hello_world_bytes() ==> res@ == hex_of_bytes(sha512_hello_world()),
{
    let hash = sha512_digest(s.as_bytes());
    hash_to_hex_string(hash.as_slice())
}

/// The SHA3-512 digest of the UTF-8 bytes of a string, in hexadecimal (`std.sha3`).
pub fn std_sha3(s: &str) -> (res: String)
    ensures
        res@ == hex_of_bytes(sha3_512_of(encode_utf8(s@))),
{
    let hash = sha3_512_digest(s.as_bytes());
    hash_to_hex_string(hash.as_slice())
}

/// Every digest is written with two digits per byte.
pub proof fn law_hex_length(b: Seq<u8>)
    ensures
        hex_of_bytes(b).len() == 2 * b.len(),
    decreases b.len(),
{
    if b.len() > 0 {
        law_hex_length(b.drop_last());
    }
}

} // verus!
