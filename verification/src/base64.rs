//! Base64 encoding and decoding with the standard alphabet and `=` padding.

use vstd::prelude::*;

use crate::text::{string_from_chars, chars_of, debug_char, debug_char_text, concat_str};
use crate::error::{EvalErrorKind, is_other_error, other_error};

verus! {

/// The character of the alphabet for a 6-bit index.
pub open spec fn b64_char(i: u8) -> char {
    if i < 26 {
        (65 + i) as char
    } else if i < 52 {
        (97 + (i - 26)) as char
    } else if i < 62 {
        (48 + (i - 52)) as char
    } else if i == 62 {
        '+'
    } else {
        '/'
    }
}

/// The 6-bit index of an alphabet character, if it is one.
pub open spec fn b64_index(c: char) -> Option<u8> {
    if 'A' <= c && c <= 'Z' {
        Some((c as u32 - 65) as u8)
    } else if 'a' <= c && c <= 'z' {
        Some((c as u32 - 97 + 26) as u8)
    } else if '0' <= c && c <= '9' {
        Some((c as u32 - 48 + 52) as u8)
    } else if c == '+' {
        Some(62u8)
    } else if c == '/' {
        Some(63u8)
    } else {
        None
    }
}

/// Base64 encoding of a byte sequence.
pub open spec fn b64_encode(b: Seq<u8>) -> Seq<char>
    decreases b.len(),
{
    if b.len() == 0 {
        seq![]
    } else if b.len() == 1 {
        seq![b64_char(b[0] >> 2), b64_char((b[0] & 3) << 4), '=', '=']
    } else if b.len() == 2 {
        seq![
            b64_char(b[0] >> 2),
            b64_char(((b[0] & 3) << 4) | (b[1] >> 4)),
            b64_char((b[1] & 15) << 2),
            '=',
        ]
    } else {
        seq![
            b64_char(b[0] >> 2),
            b64_char(((b[0] & 3) << 4) | (b[1] >> 4)),
            b64_char(((b[1] & 15) << 2) | (b[2] >> 6)),
            b64_char(b[2] & 63),
        ] + b64_encode(b.skip(3))
    }
}

/// Why a base64 text cannot be decoded.
#[derive(Clone, Copy, Debug, PartialEq, Eq, Structural)]
pub enum Base64Error {
    /// The number of characters is not a multiple of 4.
    BadLength,
    /// The first character (in decoding order) that is not in the alphabet.
    InvalidChar(char),
}

/// Decodes a group of four alphabet characters into three bytes.
pub open spec fn b64_decode_full(c: Seq<char>) -> Result<Seq<u8>, Base64Error> {
    match (b64_index(c[0]), b64_index(c[1]), b64_index(c[2]), b64_index(c[3])) {
        (None, _, _, _) => Err(Base64Error::InvalidChar(c[0])),
        (Some(_), None, _, _) => Err(Base64Error::InvalidChar(c[1])),
        (Some(_), Some(_), None, _) => Err(Base64Error::InvalidChar(c[2])),
        (Some(_), Some(_), Some(_), None) => Err(Base64Error::InvalidChar(c[3])),
        (Some(i0), Some(i1), Some(i2), Some(i3)) => Ok(
            seq![((i0 << 2) | (i1 >> 4)) as u8, ((i1 << 4) | (i2 >> 2)) as u8, ((i2 << 6) | i3) as u8],
        ),
    }
}

/// Decodes the last group of four characters, which may end with `=` or `==`.
pub open spec fn b64_decode_last(c: Seq<char>) -> Result<Seq<u8>, Base64Error> {
    match (b64_index(c[0]), b64_index(c[1])) {
        (None, _) => Err(Base64Error::InvalidChar(c[0])),
        (Some(_), None) => Err(Base64Error::InvalidChar(c[1])),
        (Some(i0), Some(i1)) => {
            let first = ((i0 << 2) | (i1 >> 4)) as u8;
            if c[2] == '=' && c[3] == '=' {
                Ok(seq![first])
            } else if c[3] == '=' {
                match b64_index(c[2]) {
                    None => Err(Base64Error::InvalidChar(c[2])),
                    Some(i2) => Ok(seq![first, ((i1 << 4) | (i2 >> 2)) as u8]),
                }
            } else {
                match (b64_index(c[2]), b64_index(c[3])) {
                    (None, _) => Err(Base64Error::InvalidChar(c[2])),
                    (Some(_), None) => Err(Base64Error::InvalidChar(c[3])),
                    (Some(i2), Some(i3)) => Ok(
                        seq![first, ((i1 << 4) | (i2 >> 2)) as u8, ((i2 << 6) | i3) as u8],
                    ),
                }
            }
        },
    }
}

/// Decodes a non-empty text whose length is a multiple of 4, group by group.
pub open spec fn b64_decode_groups(c: Seq<char>) -> Result<Seq<u8>, Base64Error>
    decreases c.len(),
{
    if c.len() <= 4 {
        b64_decode_last(c)
    } else {
        match b64_decode_full(c.take(4)) {
            Err(e) => Err(e),
            Ok(b) => match b64_decode_groups(c.skip(4)) {
                Err(e) => Err(e),
                Ok(r) => Ok(b + r),
            },
        }
    }
}

/// Base64 decoding of a text.
pub open spec fn b64_decode(c: Seq<char>) -> Result<Seq<u8>, Base64Error> {
    if c.len() % 4 != 0 {
        Err(Base64Error::BadLength)
    } else if c.len() == 0 {
        Ok(seq![])
    } else {
        b64_decode_groups(c)
    }
}

/// The character of the alphabet for a 6-bit index.
pub fn base64_char(i: u8) -> (res: char)
    requires
        i < 64,
    ensures
        res == b64_char(i),
{
    if i < 26 {
        (65 + i) as char
    } else if i < 52 {
        (97 + (i - 26)) as char
    } else if i < 62 {
        (48 + (i - 52)) as char
    } else if i == 62 {
        '+'
    } else {
        '/'
    }
}

fn chr_to_index(chr: char) -> (res: Option<u8>)
    ensures
        res == b64_index(chr),
{
    if 'A' <= chr && chr <= 'Z' {
        Some((chr as u32 - 65) as u8)
    } else if 'a' <= chr && chr <= 'z' {
        Some((chr as u32 - 97 + 26) as u8)
    } else if '0' <= chr && chr <= '9' {
        Some((chr as u32 - 48 + 52) as u8)
    } else if chr == '+' {
        Some(62)
    } else if chr == '/' {
        Some(63)
    } else {
        None
    }
}

proof fn lemma_b64_encode_len(b: Seq<u8>)
    ensures
        b64_encode(b).len() % 4 == 0,
        b.len() > 0 ==> b64_encode(b).len() > 0,
    decreases b.len(),
{
    if b.len() > 2 {
        lemma_b64_encode_len(b.skip(3));
    }
}

proof fn lemma_b64_encode_skip(b: Seq<u8>, k: int)
    requires
        0 <= k,
        3 * k <= b.len(),
    ensures
        b64_encode(b) == b64_encode(b.take(3 * k)) + b64_encode(b.skip(3 * k)),
    decreases k,
{
    if k > 0 {
        lemma_b64_encode_skip(b.skip(3), k - 1);
        assert(b.skip(3).skip(3 * (k - 1)) =~= b.skip(3 * k));
        assert(b.take(3 * k).skip(3) =~= b.skip(3).take(3 * (k - 1)));
        assert(b.take(3 * k).len() > 2);
    } else {
        assert(b.take(0) =~= Seq::<u8>::empty());
        assert(b.skip(0) =~= b);
    }
}

/// Base64 encoding of bytes.
pub fn encode_base64(input: &[u8]) -> (res: String)
    ensures
        res@ == b64_encode(input@),
{
    let mut encoded: Vec<char> = Vec::new();
    let n = input.len();
    let mut i: usize = 0;
    let ghost mut k: int = 0;
    while n - i >= 3
        invariant
            n == input@.len(),
            i == 3 * k,
            i <= n,
            encoded@ == b64_encode(input@.take(i as int)),
        decreases n - i,
    {
        let b0 = input[i];
        let b1 = input[i + 1];
        let b2 = input[i + 2];
        assert(b0 >> 2 < 64 && ((b0 & 3) << 4) | (b1 >> 4) < 64 && ((b1 & 15) << 2) | (b2 >> 6) < 64 && b2
            & 63 < 64) by (bit_vector);
        encoded.push(base64_char(b0 >> 2));
        encoded.push(base64_char(((b0 & 3) << 4) | (b1 >> 4)));
        encoded.push(base64_char(((b1 & 15) << 2) | (b2 >> 6)));
        encoded.push(base64_char(b2 & 63));
        proof {
            let t = input@.take(i + 3);
            lemma_b64_encode_skip(t, k);
            assert(t.take(i as int) =~= input@.take(i as int));
            assert(t.skip(i as int) =~= seq![b0, b1, b2]);
            assert(seq![b0, b1, b2].skip(3) =~= Seq::<u8>::empty());
            lemma_encode_3(b0, b1, b2);
            assert(input@.take(i + 3) == t);
        }
        i = i + 3;
        proof { k = k + 1; }
    }
    let rem = n - i;
    if rem == 1 {
        let b0 = input[i];
        assert(b0 >> 2 < 64 && (b0 & 3) << 4 < 64) by (bit_vector);
        encoded.push(base64_char(b0 >> 2));
        encoded.push(base64_char((b0 & 3) << 4));
        encoded.push('=');
        encoded.push('=');
    } else if rem == 2 {
        let b0 = input[i];
        let b1 = input[i + 1];
        assert(b0 >> 2 < 64 && ((b0 & 3) << 4) | (b1 >> 4) < 64 && (b1 & 15) << 2 < 64) by (bit_vector);
        encoded.push(base64_char(b0 >> 2));
        encoded.push(base64_char(((b0 & 3) << 4) | (b1 >> 4)));
        encoded.push(base64_char((b1 & 15) << 2));
        encoded.push('=');
    }
    proof {
        lemma_b64_encode_skip(input@, k);
        assert(input@.take(i as int) =~= input@.take(3 * k));
        if rem == 1 {
            assert(input@.skip(i as int) =~= seq![input@[i as int]]);
        } else if rem == 2 {
            assert(input@.skip(i as int) =~= seq![input@[i as int], input@[i + 1]]);
        } else {
            assert(input@.skip(i as int) =~= Seq::<u8>::empty());
        }
    }
    string_from_chars(encoded.as_slice())
}

proof fn lemma_b64_decode_groups_split(c: Seq<char>, k: int)
    requires
        c.len() % 4 == 0,
        0 <= k,
        4 * k < c.len(),
        forall|j: int| 0 <= j < k ==> b64_decode_full(#[trigger] group(c, j)) is Ok,
    ensures
        b64_decode_groups(c) == match b64_decode_groups(c.skip(4 * k)) {
            Err(e) => Err(e),
            Ok(r) => Ok(b64_decoded_prefix(c, k) + r),
        },
    decreases k,
{
    if k > 0 {
        assert(c.subrange(0, 4) =~= c.take(4));
        assert forall|j: int| 0 <= j < k - 1 implies b64_decode_full(#[trigger] group(c.skip(4), j)) is Ok by {
            assert(group(c.skip(4), j) =~= group(c, j + 1));
        }
        lemma_b64_decode_groups_split(c.skip(4), k - 1);
        assert(c.skip(4).skip(4 * (k - 1)) =~= c.skip(4 * k));
        lemma_b64_decoded_prefix_step(c, k);
        assert(b64_decode_full(group(c, 0)) is Ok);
        assert(group(c, 0) =~= c.take(4));
        let b = b64_decode_full(c.take(4)).unwrap();
        assert(c.len() > 4);
        match b64_decode_groups(c.skip(4 * k)) {
            Err(e) => {
                assert(b64_decode_groups(c.skip(4)) == Err::<Seq<u8>, Base64Error>(e));
            },
            Ok(r) => {
                let p = b64_decoded_prefix(c.skip(4), k - 1);
                assert(b64_decode_groups(c.skip(4)) == Ok::<Seq<u8>, Base64Error>(p + r));
                assert(b + (p + r) =~= (b + p) + r);
            },
        }
    } else {
        assert(c.skip(0) =~= c);
        assert(b64_decoded_prefix(c, 0) =~= Seq::<u8>::empty());
    }
}

/// The `j`-th group of four characters of `c`.
pub open spec fn group(c: Seq<char>, j: int) -> Seq<char> {
    c.subrange(4 * j, 4 * j + 4)
}

/// The bytes that the first `k` full groups of `c` decode to.
pub open spec fn b64_decoded_prefix(c: Seq<char>, k: int) -> Seq<u8>
    decreases k,
{
    if k <= 0 {
        seq![]
    } else {
        b64_decoded_prefix(c, k - 1) + b64_decode_full(c.subrange(4 * (k - 1), 4 * k)).unwrap()
    }
}

proof fn lemma_b64_decoded_prefix_step(c: Seq<char>, k: int)
    requires
        k > 0,
        4 * k <= c.len(),
    ensures
        b64_decoded_prefix(c, k) == b64_decode_full(c.take(4)).unwrap() + b64_decoded_prefix(c.skip(4), k - 1),
    decreases k,
{
    if k == 1 {
        assert(c.subrange(0, 4) =~= c.take(4));
        assert(b64_decoded_prefix(c.skip(4), 0) =~= Seq::<u8>::empty());
        assert(b64_decoded_prefix(c, 0) =~= Seq::<u8>::empty());
    } else {
        lemma_b64_decoded_prefix_step(c, k - 1);
        assert(c.skip(4).subrange(4 * (k - 2), 4 * (k - 1)) =~= c.subrange(4 * (k - 1), 4 * k));
    }
}

/// Base64 decoding of a text.
pub fn decode_base64(encoded: &[char]) -> (res: Result<Vec<u8>, Base64Error>)
    ensures
        match res {
            Ok(v) => b64_decode(encoded@) == Ok::<Seq<u8>, Base64Error>(v@),
            Err(e) => b64_decode(encoded@) == Err::<Seq<u8>, Base64Error>(e),
        },
{
    let n = encoded.len();
    if n % 4 != 0 {
        return Err(Base64Error::BadLength);
    }
    let mut decoded: Vec<u8> = Vec::new();
    if n == 0 {
        return Ok(decoded);
    }
    let ghost c = encoded@;
    let mut g: usize = 0;
    while g + 4 < n
        invariant
            c == encoded@,
            n == c.len(),
            n % 4 == 0,
            g % 4 == 0,
            g < n,
            forall|j: int| 0 <= j < g / 4 ==> b64_decode_full(#[trigger] group(c, j)) is Ok,
            decoded@ == b64_decoded_prefix(c, (g / 4) as int),
        decreases n - g,
    {
        let ghost chunk = c.subrange(g as int, g + 4);
        let i0 = match chr_to_index(encoded[g]) {
            Some(i) => i,
            None => {
                proof { lemma_b64_decode_groups_split(c, (g / 4) as int); assert(c.skip(g as int).take(4) =~= chunk); }
                return Err(Base64Error::InvalidChar(encoded[g]));
            },
        };
        let i1 = match chr_to_index(encoded[g + 1]) {
            Some(i) => i,
            None => {
                proof { lemma_b64_decode_groups_split(c, (g / 4) as int); assert(c.skip(g as int).take(4) =~= chunk); }
                return Err(Base64Error::InvalidChar(encoded[g + 1]));
            },
        };
        let i2 = match chr_to_index(encoded[g + 2]) {
            Some(i) => i,
            None => {
                proof { lemma_b64_decode_groups_split(c, (g / 4) as int); assert(c.skip(g as int).take(4) =~= chunk); }
                return Err(Base64Error::InvalidChar(encoded[g + 2]));
            },
        };
        let i3 = match chr_to_index(encoded[g + 3]) {
            Some(i) => i,
            None => {
                proof { lemma_b64_decode_groups_split(c, (g / 4) as int); assert(c.skip(g as int).take(4) =~= chunk); }
                return Err(Base64Error::InvalidChar(encoded[g + 3]));
            },
        };
        decoded.push((i0 << 2) | (i1 >> 4));
        decoded.push((i1 << 4) | (i2 >> 2));
        decoded.push((i2 << 6) | i3);
        proof {
            assert(chunk[0] == c[g as int] && chunk[1] == c[g + 1] && chunk[2] == c[g + 2] && chunk[3] == c[g + 3]);
            assert(b64_decode_full(chunk) == Ok::<Seq<u8>, Base64Error>(seq![(i0 << 2) | (i1 >> 4), (i1 << 4) | (i2 >> 2), (i2 << 6) | i3]));
            assert(group(c, (g / 4) as int) =~= chunk);
            assert(decoded@ =~= b64_decoded_prefix(c, (g / 4 + 1) as int));
        }
        g = g + 4;
    }
    let ghost last = c.skip(g as int);
    proof {
        lemma_b64_decode_groups_split(c, (g / 4) as int);
        assert(last.len() == 4);
        assert(last[0] == c[g as int] && last[1] == c[g + 1] && last[2] == c[g + 2] && last[3] == c[g + 3]);
    }
    let ghost before = decoded@;
    let i0 = match chr_to_index(encoded[g]) {
        Some(i) => i,
        None => return Err(Base64Error::InvalidChar(encoded[g])),
    };
    let i1 = match chr_to_index(encoded[g + 1]) {
        Some(i) => i,
        None => return Err(Base64Error::InvalidChar(encoded[g + 1])),
    };
    decoded.push((i0 << 2) | (i1 >> 4));
    let e2 = encoded[g + 2];
    let e3 = encoded[g + 3];
    if e2 == '=' && e3 == '=' {
    } else if e3 == '=' {
        let i2 = match chr_to_index(e2) {
            Some(i) => i,
            None => return Err(Base64Error::InvalidChar(e2)),
        };
        decoded.push((i1 << 4) | (i2 >> 2));
    } else {
        let i2 = match chr_to_index(e2) {
            Some(i) => i,
            None => return Err(Base64Error::InvalidChar(e2)),
        };
        let i3 = match chr_to_index(e3) {
            Some(i) => i,
            None => return Err(Base64Error::InvalidChar(e3)),
        };
        decoded.push((i1 << 4) | (i2 >> 2));
        decoded.push((i2 << 6) | i3);
    }
    proof {
        let r = b64_decode_last(last).unwrap();
        assert(decoded@ =~= before + r);
    }
    Ok(decoded)
}

/// Decoding the encoding of any bytes gives the bytes back.
pub proof fn law_base64_roundtrip(b: Seq<u8>)
    ensures
        b64_decode(b64_encode(b)) == Ok::<Seq<u8>, Base64Error>(b),
    decreases b.len(),
{
    if b.len() == 0 {
        assert(b =~= Seq::<u8>::empty());
        assert(b64_decode(Seq::<char>::empty()) == Ok::<Seq<u8>, Base64Error>(Seq::<u8>::empty()));
    } else if b.len() == 1 {
        lemma_group_1(b[0]);
        assert(seq![b[0]] =~= b);
    } else if b.len() == 2 {
        lemma_group_2(b[0], b[1]);
        assert(seq![b[0], b[1]] =~= b);
    } else {
        law_base64_roundtrip(b.skip(3));
        lemma_roundtrip_step(b);
    }
}

proof fn lemma_roundtrip_step(b: Seq<u8>)
    requires
        b.len() >= 3,
        b64_decode(b64_encode(b.skip(3))) == Ok::<Seq<u8>, Base64Error>(b.skip(3)),
    ensures
        b64_decode(b64_encode(b)) == Ok::<Seq<u8>, Base64Error>(b),
{
    let e = b64_encode(b);
    let (b0, b1, b2) = (b[0], b[1], b[2]);
    lemma_group_3(b0, b1, b2);
    let head = b64_encode(seq![b0, b1, b2]);
    let rest = b.skip(3);
    lemma_b64_encode_len(rest);
    assert(e == head + b64_encode(rest));
    assert(seq![b0, b1, b2] + rest =~= b);
    if rest.len() == 0 {
        assert(b64_encode(rest) =~= Seq::<char>::empty());
        assert(e =~= head);
        assert(b64_decode(e) == b64_decode_last(head));
    } else {
        assert(e.take(4) =~= head);
        assert(e.skip(4) =~= b64_encode(rest));
        assert(e.len() % 4 == 0 && e.len() > 4);
        assert(b64_decode_groups(b64_encode(rest)) == Ok::<Seq<u8>, Base64Error>(rest));
        assert(b64_decode_groups(e) == Ok::<Seq<u8>, Base64Error>(seq![b0, b1, b2] + rest));
    }
}

proof fn lemma_group_1(b0: u8)
    ensures
        b64_decode(b64_encode(seq![b0])) == Ok::<Seq<u8>, Base64Error>(seq![b0]),
{
    assert(b0 >> 2 < 64 && (b0 & 3) << 4 < 64 && (((b0 >> 2) << 2) | (((b0 & 3) << 4) >> 4)) == b0) by (bit_vector);
    lemma_b64_char_index(b0 >> 2);
    lemma_b64_char_index((b0 & 3) << 4);
    let e = b64_encode(seq![b0]);
    assert(b64_decode_last(e) == Ok::<Seq<u8>, Base64Error>(seq![b0]));
}

proof fn lemma_group_2(b0: u8, b1: u8)
    ensures
        b64_decode(b64_encode(seq![b0, b1])) == Ok::<Seq<u8>, Base64Error>(seq![b0, b1]),
{
    let i1 = ((b0 & 3) << 4) | (b1 >> 4);
    let i2 = (b1 & 15) << 2;
    assert(b0 >> 2 < 64 && i1 < 64 && i2 < 64 && (((b0 >> 2) << 2) | (i1 >> 4)) == b0 && ((i1 << 4) | (i2 >> 2))
        == b1) by (bit_vector)
        requires
            i1 == ((b0 & 3) << 4) | (b1 >> 4),
            i2 == (b1 & 15) << 2,
    ;
    lemma_b64_char_index(b0 >> 2);
    lemma_b64_char_index(i1);
    lemma_b64_char_index(i2);
    let e = b64_encode(seq![b0, b1]);
    assert(b64_decode_last(e) == Ok::<Seq<u8>, Base64Error>(seq![b0, b1]));
}

proof fn lemma_group_3(b0: u8, b1: u8, b2: u8)
    ensures
        b64_encode(seq![b0, b1, b2]).len() == 4,
        b64_decode_full(b64_encode(seq![b0, b1, b2])) == Ok::<Seq<u8>, Base64Error>(seq![b0, b1, b2]),
        b64_decode_last(b64_encode(seq![b0, b1, b2])) == Ok::<Seq<u8>, Base64Error>(seq![b0, b1, b2]),
{
    let i0 = b0 >> 2;
    let i1 = ((b0 & 3) << 4) | (b1 >> 4);
    let i2 = ((b1 & 15) << 2) | (b2 >> 6);
    let i3 = b2 & 63;
    assert(i0 < 64 && i1 < 64 && i2 < 64 && i3 < 64 && ((i0 << 2) | (i1 >> 4)) == b0 && ((i1 << 4) | (i2 >> 2))
        == b1 && ((i2 << 6) | i3) == b2) by (bit_vector)
        requires
            i0 == b0 >> 2,
            i1 == ((b0 & 3) << 4) | (b1 >> 4),
            i2 == ((b1 & 15) << 2) | (b2 >> 6),
            i3 == b2 & 63,
    ;
    lemma_b64_char_index(i0);
    lemma_b64_char_index(i1);
    lemma_b64_char_index(i2);
    lemma_b64_char_index(i3);
    lemma_encode_3(b0, b1, b2);
}

proof fn lemma_encode_3(b0: u8, b1: u8, b2: u8)
    ensures
        b64_encode(seq![b0, b1, b2]) == seq![
            b64_char(b0 >> 2),
            b64_char(((b0 & 3) << 4) | (b1 >> 4)),
            b64_char(((b1 & 15) << 2) | (b2 >> 6)),
            b64_char(b2 & 63),
        ],
{
    let s = seq![b0, b1, b2];
    assert(s.skip(3) =~= Seq::<u8>::empty());
    assert(b64_encode(Seq::<u8>::empty()) == Seq::<char>::empty());
    assert(s[0] == b0 && s[1] == b1 && s[2] == b2);
    let head = seq![
        b64_char(b0 >> 2),
        b64_char(((b0 & 3) << 4) | (b1 >> 4)),
        b64_char(((b1 & 15) << 2) | (b2 >> 6)),
        b64_char(b2 & 63),
    ];
    assert(b64_encode(s) == head + b64_encode(s.skip(3)));
    assert(head + Seq::<char>::empty() =~= head);
}

/// Each alphabet character decodes to its index, and none is `=`.
proof fn lemma_b64_char_index(i: u8)
    requires
        i < 64,
    ensures
        b64_index(b64_char(i)) == Some(i),
        b64_char(i) != '=',
{
}

/// The message of a decoding error.
pub open spec fn b64_error_text(e: Base64Error) -> Seq<char> {
    match e {
        Base64Error::BadLength => "length of base64 string is not a multiple of 4"@,
        Base64Error::InvalidChar(c) => "invalid base64 character: "@ + debug_char_text(c),
    }
}

/// The error of the standard library for a decoding error.
fn b64_error(e: Base64Error) -> (res: EvalErrorKind)
    ensures
        is_other_error(res, b64_error_text(e)),
{
    match e {
        Base64Error::BadLength => other_error(String::from_str("length of base64 string is not a multiple of 4")),
        Base64Error::InvalidChar(c) => {
            let shown = debug_char(c);
            other_error(concat_str("invalid base64 character: ", shown.as_str()))
        },
    }
}

/// The bytes that the characters of a string stand for, each character
/// taken as its code point.
pub open spec fn latin1_bytes(s: Seq<char>) -> Seq<u8> {
    s.map_values(|c: char| (c as u32) as u8)
}

/// The characters that bytes stand for, each byte taken as a code point.
pub open spec fn latin1_chars(b: Seq<u8>) -> Seq<char> {
    b.map_values(|x: u8| x as char)
}

/// Base64 of a string whose characters are all code points up to 255
/// (`std.base64` on a string).
pub fn std_base64_string(s: &str) -> (res: Result<String, EvalErrorKind>)
    ensures
        (forall|i: int| 0 <= i < s@.len() ==> (s@[i] as u32) <= 255) ==> (res matches Ok(t) && t@ == b64_encode(
            latin1_bytes(s@),
        )),
        !(forall|i: int| 0 <= i < s@.len() ==> (s@[i] as u32) <= 255) ==> (res matches Err(e) && is_other_error(
            e,
            "only codepoints up to 255 can be base64 encoded"@,
        )),
{
    let cs = chars_of(s);
    let mut bytes: Vec<u8> = Vec::new();
    let mut i: usize = 0;
    while i < cs.len()
        invariant
            0 <= i <= cs@.len(),
            cs@ == s@,
            forall|j: int| 0 <= j < i ==> (s@[j] as u32) <= 255,
            bytes@ == latin1_bytes(s@.subrange(0, i as int)),
        decreases cs@.len() - i,
    {
        let c = cs[i];
        if (c as u32) > 255 {
            return Err(other_error(String::from_str("only codepoints up to 255 can be base64 encoded")));
        }
        bytes.push((c as u32) as u8);
        i += 1;
        proof {
            assert(bytes@ =~= latin1_bytes(s@.subrange(0, i as int)));
        }
    }
    proof {
        assert(s@.subrange(0, i as int) =~= s@);
    }
    Ok(encode_base64(bytes.as_slice()))
}

/// The bytes that a base64 string encodes (`std.base64DecodeBytes`).
pub fn std_base64_decode_bytes(s: &str) -> (res: Result<Vec<u8>, EvalErrorKind>)
    ensures
        match b64_decode(s@) {
            Ok(b) => res matches Ok(v) && v@ == b,
            Err(e) => res matches Err(k) && is_other_error(k, b64_error_text(e)),
        },
{
    let cs = chars_of(s);
    match decode_base64(cs.as_slice()) {
        Ok(v) => Ok(v),
        Err(e) => Err(b64_error(e)),
    }
}

/// The string whose code points are the bytes that a base64 string
/// encodes (`std.base64Decode`).
pub fn std_base64_decode(s: &str) -> (res: Result<String, EvalErrorKind>)
    ensures
        match b64_decode(s@) {
            Ok(b) => res matches Ok(t) && t@ == latin1_chars(b),
            Err(e) => res matches Err(k) && is_other_error(k, b64_error_text(e)),
        },
{
    let bytes = match std_base64_decode_bytes(s) {
        Ok(v) => v,
        Err(e) => {
            return Err(e);
        },
    };
    let mut out: Vec<char> = Vec::new();
    let mut i: usize = 0;
    while i < bytes.len()
        invariant
            0 <= i <= bytes@.len(),
            out@ == latin1_chars(bytes@.subrange(0, i as int)),
        decreases bytes@.len() - i,
    {
        out.push(bytes[i] as char);
        i += 1;
        proof {
            assert(out@ =~= latin1_chars(bytes@.subrange(0, i as int)));
        }
    }
    proof {
        assert(bytes@.subrange(0, i as int) =~= bytes@);
    }
    Ok(string_from_chars(out.as_slice()))
}

} // verus!
