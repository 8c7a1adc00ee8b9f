//! Octal and hexadecimal digit strings, as `std.parseOctal`,
//! `std.parseHex` and the YAML reader take them: the digits that fit in
//! 128 bits are read exactly, the rest only counted (the number itself is a
//! float, `value * radix^rest`).

use vstd::prelude::*;
use crate::text::{chars_of, debug_char, debug_char_text, debug_str, debug_str_text, concat_str};
use vstd::arithmetic::power2::{pow2, lemma2_to64, lemma2_to64_rest, lemma_pow2_adds};
use crate::format::utf8_len;
use crate::error::{EvalErrorKind, is_other_error, other_error};

verus! {

/// Why a digit string gives no number.
#[derive(Copy, Clone, Debug, PartialEq, Eq, Structural)]
pub enum RadixError {
    Empty,
    InvalidDigit(char),
}

/// How many digits of the radix fit in 128 bits.
pub open spec fn radix_max_digits(radix: nat) -> nat {
    if radix == 8 {
        42
    } else {
        32
    }
}

/// Whether `c` is a digit of the radix.
pub open spec fn is_radix_digit(c: char, radix: nat) -> bool {
    if radix == 8 {
        '0' <= c && c <= '7'
    } else {
        is_hex_digit(c)
    }
}

/// Whether `c` is an ASCII hexadecimal digit.
pub open spec fn is_hex_digit(c: char) -> bool {
    ('0' <= c && c <= '9') || ('a' <= c && c <= 'f') || ('A' <= c && c <= 'F')
}

/// The value of a digit.
pub open spec fn digit_value(c: char) -> nat {
    if '0' <= c && c <= '9' {
        ((c as u32) - 48) as nat
    } else if 'a' <= c && c <= 'f' {
        ((c as u32) - 87) as nat
    } else {
        ((c as u32) - 55) as nat
    }
}

/// `radix` to the power `n`.
pub open spec fn radix_pow(radix: nat, n: nat) -> nat
    decreases n,
{
    if n == 0 {
        1
    } else {
        radix * radix_pow(radix, (n - 1) as nat)
    }
}

/// The number the digits write in the radix.
pub open spec fn radix_value(s: Seq<char>, radix: nat) -> nat
    decreases s.len(),
{
    if s.len() == 0 {
        0
    } else {
        radix_value(s.drop_last(), radix) * radix + digit_value(s.last())
    }
}

/// The first position at or after `i` that does not hold `0`.
pub open spec fn skip_zeros(s: Seq<char>, i: int) -> int
    decreases s.len() - i,
{
    if 0 <= i < s.len() && s[i] == '0' {
        skip_zeros(s, i + 1)
    } else {
        i
    }
}

/// The first position at or after `k` where the bytes before it reach
/// `max`, or the length.
pub open spec fn cut_from(t: Seq<char>, max: nat, k: int) -> int
    decreases t.len() - k,
{
    if k < 0 || k >= t.len() || utf8_len(t.subrange(0, k)) >= max {
        k
    } else {
        cut_from(t, max, k + 1)
    }
}

/// The digits once the leading zeros are gone.
pub open spec fn trimmed(s: Seq<char>) -> Seq<char> {
    s.subrange(skip_zeros(s, 0), s.len() as int)
}

/// Where the exactly read digits end.
pub open spec fn cut(s: Seq<char>, radix: nat) -> int {
    cut_from(trimmed(s), radix_max_digits(radix), 0)
}

/// Whether the first 128 bits' worth of digits end between two characters
/// (else the byte slice that takes them would not be a string).
pub open spec fn radix_cut_ok(s: Seq<char>, radix: nat) -> bool {
    let t = trimmed(s);
    utf8_len(t) <= radix_max_digits(radix) || utf8_len(t.subrange(0, cut(s, radix))) == radix_max_digits(radix)
}

/// The first position in `[i, j)` whose character fails the test of the
/// radix (`radix` 0 meaning any ASCII hexadecimal digit), or `j`.
pub open spec fn first_bad(s: Seq<char>, i: int, j: int, radix: nat) -> int
    decreases j - i,
{
    if i >= j || i < 0 || j > s.len() {
        j
    } else if !(if radix == 0 {
        is_hex_digit(s[i])
    } else {
        is_radix_digit(s[i], radix)
    }) {
        i
    } else {
        first_bad(s, i + 1, j, radix)
    }
}

/// The exactly read value and the number of further digits, or the error.
pub open spec fn radix_parse_model(s: Seq<char>, radix: nat) -> Result<(nat, nat), RadixError> {
    if s.len() == 0 {
        Err(RadixError::Empty)
    } else {
        let t = trimmed(s);
        let k = cut(s, radix);
        let b1 = first_bad(t, 0, k, radix);
        let b2 = first_bad(t, k, t.len() as int, 0);
        if b1 < k {
            Err(RadixError::InvalidDigit(t[b1]))
        } else if b2 < t.len() {
            Err(RadixError::InvalidDigit(t[b2]))
        } else {
            Ok((radix_value(t.subrange(0, k), radix), (t.len() - k) as nat))
        }
    }
}

proof fn lemma_skip_zeros(s: Seq<char>, i: int)
    requires
        0 <= i <= s.len(),
    ensures
        i <= skip_zeros(s, i) <= s.len(),
    decreases s.len() - i,
{
    if 0 <= i < s.len() && s[i] == '0' {
        lemma_skip_zeros(s, i + 1);
    }
}

proof fn lemma_cut_from(t: Seq<char>, max: nat, k: int)
    requires
        0 <= k <= t.len(),
    ensures
        k <= cut_from(t, max, k) <= t.len(),
        forall|j: int| k <= j < cut_from(t, max, k) ==> utf8_len(#[trigger] t.subrange(0, j)) < max,
        cut_from(t, max, k) < t.len() ==> utf8_len(t.subrange(0, cut_from(t, max, k))) >= max,
    decreases t.len() - k,
{
    if k >= t.len() || utf8_len(t.subrange(0, k)) >= max {
    } else {
        lemma_cut_from(t, max, k + 1);
    }
}

proof fn lemma_utf8_len_prefix(t: Seq<char>, j: int)
    requires
        0 <= j <= t.len(),
    ensures
        j <= utf8_len(t.subrange(0, j)),
    decreases j,
{
    if j > 0 {
        lemma_utf8_len_prefix(t, j - 1);
        assert(t.subrange(0, j).drop_last() =~= t.subrange(0, j - 1));
    }
}

proof fn lemma_radix_value_bound(s: Seq<char>, radix: nat)
    requires
        radix == 8 || radix == 16,
        forall|i: int| 0 <= i < s.len() ==> is_radix_digit(#[trigger] s[i], radix),
    ensures
        radix_value(s, radix) < radix_pow(radix, s.len()),
    decreases s.len(),
{
    if s.len() > 0 {
        let p = s.drop_last();
        assert forall|i: int| 0 <= i < p.len() implies is_radix_digit(#[trigger] p[i], radix) by {
            assert(p[i] == s[i]);
        }
        lemma_radix_value_bound(p, radix);
        let v = radix_value(p, radix);
        let d = digit_value(s.last());
        assert(is_radix_digit(s[s.len() - 1], radix));
        assert(d < radix);
        let pw = radix_pow(radix, p.len());
        assert(radix_pow(radix, s.len()) == radix * pw);
        assert(v * radix + d < radix * pw) by (nonlinear_arith)
            requires
                v < pw,
                d < radix,
                radix > 0,
        ;
    }
}

fn is_radix_digit_exec(c: char, radix: u8) -> (res: bool)
    ensures
        res == (if radix == 0 {
            is_hex_digit(c)
        } else {
            is_radix_digit(c, radix as nat)
        }),
{
    if radix == 8 {
        '0' <= c && c <= '7'
    } else {
        ('0' <= c && c <= '9') || ('a' <= c && c <= 'f') || ('A' <= c && c <= 'F')
    }
}

fn digit_value_exec(c: char) -> (res: u32)
    requires
        is_hex_digit(c),
    ensures
        res as nat == digit_value(c),
        res < 16,
{
    if '0' <= c && c <= '9' {
        (c as u32) - 48
    } else if 'a' <= c && c <= 'f' {
        (c as u32) - 87
    } else {
        (c as u32) - 55
    }
}

fn skip_zeros_exec(cs: &Vec<char>, Ghost(s): Ghost<Seq<char>>) -> (start: usize)
    requires
        cs@ == s,
    ensures
        start as int == skip_zeros(s, 0),
        start <= cs.len(),
{
    let n = cs.len();
    let mut start: usize = 0;
    while start < n && cs[start] == '0'
        invariant
            0 <= start <= n,
            n == cs@.len(),
            cs@ == s,
            skip_zeros(s, 0) == skip_zeros(s, start as int),
        decreases n - start,
    {
        start += 1;
    }
    start
}

/// Where the exactly read digits end, and their UTF-8 length.
fn scan_cut(cs: &Vec<char>, start: usize, radix: u8, Ghost(s): Ghost<Seq<char>>) -> (res: (usize, u128))
    requires
        cs@ == s,
        start as int == skip_zeros(s, 0),
        start <= cs.len(),
        radix == 8 || radix == 16,
    ensures
        start <= res.0 <= cs.len(),
        res.0 - start == cut(s, radix as nat),
        res.1 == utf8_len(trimmed(s).subrange(0, res.0 - start)),
        res.0 - start <= radix_max_digits(radix as nat),
{
    let n = cs.len();
    let ghost t = trimmed(s);
    let max: u128 = if radix == 8 {
        42
    } else {
        32
    };
    let mut k = start;
    let mut bytes: u128 = 0;
    proof {
        assert(t.subrange(0, 0) =~= Seq::<char>::empty());
        lemma_cut_from(t, max as nat, 0);
    }
    while k < n && bytes < max
        invariant
            start <= k <= n,
            n == cs@.len(),
            cs@ == s,
            t == cs@.subrange(start as int, n as int),
            max == radix_max_digits(radix as nat),
            bytes == utf8_len(t.subrange(0, k - start)),
            cut_from(t, max as nat, 0) == cut_from(t, max as nat, k - start),
        decreases n - k,
    {
        let u = cs[k] as u32;
        let w: u128 = if u < 0x80 {
            1
        } else if u < 0x800 {
            2
        } else if u < 0x10000 {
            3
        } else {
            4
        };
        proof {
            let sub = t.subrange(0, k - start + 1);
            assert(sub.drop_last() =~= t.subrange(0, k - start));
            assert(sub.last() == cs@[k as int]);
        }
        bytes = bytes + w;
        k += 1;
    }
    let ghost kk = k - start;
    proof {
        assert(kk == cut(s, radix as nat));
        lemma_cut_from(t, max as nat, 0);
        lemma_utf8_len_prefix(t, kk);
        if kk > 0 {
            lemma_utf8_len_prefix(t, kk - 1);
            assert(utf8_len(t.subrange(0, kk - 1)) < max);
        }
    }
    (k, bytes)
}

proof fn lemma_utf8_len_grows(t: Seq<char>, a: int, b: int)
    requires
        0 <= a < b <= t.len(),
    ensures
        utf8_len(t.subrange(0, a)) < utf8_len(t.subrange(0, b)),
    decreases b,
{
    assert(t.subrange(0, b).drop_last() =~= t.subrange(0, b - 1));
    if a < b - 1 {
        lemma_utf8_len_grows(t, a, b - 1);
    }
}

/// Whether the digits that fit in 128 bits end between two characters.
pub fn radix_cut_fits(s: &str, radix: u8) -> (res: bool)
    requires
        radix == 8 || radix == 16,
    ensures
        res == radix_cut_ok(s@, radix as nat),
{
    let cs = chars_of(s);
    let start = skip_zeros_exec(&cs, Ghost(s@));
    let (k, bytes) = scan_cut(&cs, start, radix, Ghost(s@));
    let max: u128 = if radix == 8 {
        42
    } else {
        32
    };
    proof {
        let t = trimmed(s@);
        lemma_skip_zeros(s@, 0);
        assert(t.subrange(0, t.len() as int) =~= t);
        lemma_cut_from(t, max as nat, 0);
        if k - start < t.len() {
            lemma_utf8_len_grows(t, k - start, t.len() as int);
        }
    }
    bytes <= max
}

/// Reads an octal (`radix` 8) or hexadecimal (`radix` 16) digit string:
/// leading zeros are skipped, the digits that fit in 128 bits give the
/// value, and the number of ASCII hexadecimal digits after them is counted.
pub fn parse_radix_digits(s: &str, radix: u8) -> (res: Result<(u128, usize), RadixError>)
    requires
        radix == 8 || radix == 16,
        radix_cut_ok(s@, radix as nat),
    ensures
        match radix_parse_model(s@, radix as nat) {
            Ok((v, n)) => res matches Ok((rv, rn)) && rv as nat == v && rn as nat == n,
            Err(e) => res == Err::<(u128, usize), RadixError>(e),
        },
{
    let cs = chars_of(s);
    let n = cs.len();
    if n == 0 {
        return Err(RadixError::Empty);
    }
    let start = skip_zeros_exec(&cs, Ghost(s@));
    let ghost t = trimmed(s@);
    let (k, _bytes) = scan_cut(&cs, start, radix, Ghost(s@));
    let ghost kk = k - start;
    let mut value: u128 = 0;
    let mut i = start;
    while i < k
        invariant
            start <= i <= k <= n,
            n == cs@.len(),
            cs@ == s@,
            t == cs@.subrange(start as int, n as int),
            t == trimmed(s@),
            kk == cut(s@, radix as nat),
            radix == 8 || radix == 16,
            kk == k - start,
            kk <= radix_max_digits(radix as nat),
            value == radix_value(t.subrange(0, i - start), radix as nat),
            forall|j: int| 0 <= j < i - start ==> is_radix_digit(#[trigger] t[j], radix as nat),
            first_bad(t, 0, kk, radix as nat) == first_bad(t, i - start, kk, radix as nat),
        decreases k - i,
    {
        let c = cs[i];
        proof {
            assert(t[i - start] == c);
        }
        if !is_radix_digit_exec(c, radix) {
            return Err(RadixError::InvalidDigit(c));
        }
        let d = digit_value_exec(c);
        proof {
            let sub = t.subrange(0, i - start + 1);
            assert(sub.drop_last() =~= t.subrange(0, i - start));
            assert(forall|j: int| 0 <= j < sub.len() ==> is_radix_digit(#[trigger] sub[j], radix as nat));
            lemma_radix_value_bound(sub, radix as nat);
            assert(sub.len() <= 42);
            lemma_pow_bound(radix as nat, sub.len());
            assert(d < radix);
        }
        value = value * (radix as u128) + (d as u128);
        i += 1;
    }
    proof {
        assert(first_bad(t, 0, kk, radix as nat) == kk);
    }
    let mut j = k;
    while j < n
        invariant
            start <= k <= j <= n,
            n == cs@.len(),
            cs@ == s@,
            t == cs@.subrange(start as int, n as int),
            t == trimmed(s@),
            kk == cut(s@, radix as nat),
            radix == 8 || radix == 16,
            kk == k - start,
            first_bad(t, 0, kk, radix as nat) == kk,
            value == radix_value(t.subrange(0, kk), radix as nat),
            first_bad(t, kk, t.len() as int, 0) == first_bad(t, j - start, t.len() as int, 0),
        decreases n - j,
    {
        let c = cs[j];
        proof {
            assert(t[j - start] == c);
        }
        if !is_radix_digit_exec(c, 0) {
            return Err(RadixError::InvalidDigit(c));
        }
        j += 1;
    }
    Ok((value, n - k))
}

proof fn lemma_radix_pow_monotone(radix: nat, a: nat, b: nat)
    requires
        radix >= 1,
        a <= b,
    ensures
        radix_pow(radix, a) <= radix_pow(radix, b),
    decreases b,
{
    if a < b {
        lemma_radix_pow_monotone(radix, a, (b - 1) as nat);
        let p = radix_pow(radix, (b - 1) as nat);
        assert(p <= radix * p) by (nonlinear_arith)
            requires
                radix >= 1,
        ;
    }
}

proof fn lemma_radix_pow_pow2(radix: nat, n: nat)
    requires
        radix == 8 || radix == 16,
    ensures
        radix_pow(radix, n) == pow2(
            if radix == 8 {
                3 * n
            } else {
                4 * n
            },
        ),
    decreases n,
{
    lemma2_to64();
    if n > 0 {
        let m = (n - 1) as nat;
        lemma_radix_pow_pow2(radix, m);
        if radix == 8 {
            lemma_pow2_adds(3 * m, 3);
            assert(3 * m + 3 == 3 * n);
        } else {
            lemma_pow2_adds(4 * m, 4);
            assert(4 * m + 4 == 4 * n);
        }
    }
}

proof fn lemma_pow_bound(radix: nat, len: nat)
    requires
        radix == 8 || radix == 16,
        len <= radix_max_digits(radix),
    ensures
        radix_pow(radix, len) <= 0x1_0000_0000_0000_0000_0000_0000_0000_0000,
{
    lemma_radix_pow_monotone(radix, len, radix_max_digits(radix));
    lemma_radix_pow_pow2(radix, radix_max_digits(radix));
    lemma2_to64();
    lemma2_to64_rest();
    if radix == 8 {
        let e: nat = 63;
        lemma_pow2_adds(e, e);
        assert(radix_pow(8, 42) == pow2(e + e));
        assert(pow2(e) == 0x8000_0000_0000_0000);
    } else {
        let e: nat = 64;
        lemma_pow2_adds(e, e);
        assert(radix_pow(16, 32) == pow2(e + e));
        assert(pow2(e) == 0x1_0000_0000_0000_0000);
    }
}

/// The message of a digit string that gives no number, for the radix's
/// name (`octal` or `hexadecimal`).
pub open spec fn radix_error_message(s: Seq<char>, name: Seq<char>, e: RadixError) -> Seq<char> {
    match e {
        RadixError::Empty => name + " integer without digits: "@ + debug_str_text(s),
        RadixError::InvalidDigit(c) => "invalid "@ + name + " digit: "@ + debug_char_text(c),
    }
}

/// What `std.parseOctal` (`radix` 8) or `std.parseHex` (`radix` 16) gives
/// for a string: the exactly read value and the count of further digits (the
/// number is `value * radix^count`), or the error with its message.
pub open spec fn std_parse_radix_model(s: Seq<char>, radix: nat) -> Result<(nat, nat), Seq<char>> {
    let name = if radix == 8 {
        "octal"@
    } else {
        "hexadecimal"@
    };
    match radix_parse_model(s, radix) {
        Ok(p) => Ok(p),
        Err(e) => Err(radix_error_message(s, name, e)),
    }
}

fn std_parse_radix(s: &str, radix: u8, name: &str) -> (res: Result<(u128, usize), EvalErrorKind>)
    requires
        radix == 8 || radix == 16,
        name@ == (if radix == 8 {
            "octal"@
        } else {
            "hexadecimal"@
        }),
        radix_cut_ok(s@, radix as nat),
    ensures
        match std_parse_radix_model(s@, radix as nat) {
            Ok((v, n)) => res matches Ok((rv, rn)) && rv as nat == v && rn as nat == n,
            Err(m) => res matches Err(e) && is_other_error(e, m),
        },
{
    match parse_radix_digits(s, radix) {
        Ok(p) => Ok(p),
        Err(RadixError::Empty) => {
            let head = concat_str(name, " integer without digits: ");
            let q = debug_str(s);
            Err(other_error(concat_str(head.as_str(), q.as_str())))
        },
        Err(RadixError::InvalidDigit(c)) => {
            let head = concat_str("invalid ", name);
            let head2 = concat_str(head.as_str(), " digit: ");
            let q = debug_char(c);
            proof {
                assert(head2@ =~= "invalid "@ + name@ + " digit: "@);
            }
            Err(other_error(concat_str(head2.as_str(), q.as_str())))
        },
    }
}

/// `std.parseOctal` on a string: the value of the octal digits that fit in
/// 128 bits and the count of the digits after them, or the error.
pub fn std_parse_octal(s: &str) -> (res: Result<(u128, usize), EvalErrorKind>)
    requires
        radix_cut_ok(s@, 8),
    ensures
        match std_parse_radix_model(s@, 8) {
            Ok((v, n)) => res matches Ok((rv, rn)) && rv as nat == v && rn as nat == n,
            Err(m) => res matches Err(e) && is_other_error(e, m),
        },
{
    std_parse_radix(s, 8, "octal")
}

/// `std.parseHex` on a string: the value of the hexadecimal digits that fit
/// in 128 bits and the count of the digits after them, or the error.
pub fn std_parse_hex(s: &str) -> (res: Result<(u128, usize), EvalErrorKind>)
    requires
        radix_cut_ok(s@, 16),
    ensures
        match std_parse_radix_model(s@, 16) {
            Ok((v, n)) => res matches Ok((rv, rn)) && rv as nat == v && rn as nat == n,
            Err(m) => res matches Err(e) && is_other_error(e, m),
        },
{
    std_parse_radix(s, 16, "hexadecimal")
}

} // verus!
