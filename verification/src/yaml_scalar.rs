//! What a YAML scalar stands for: `null`, a boolean, a number (decimal,
//! `0o` octal or `0x` hexadecimal) or a string.

use vstd::prelude::*;
use crate::radix::{radix_parse_model, radix_cut_ok, radix_cut_fits, parse_radix_digits};
use crate::strings::substr;
use crate::text::{chars_of, str_eq};
use crate::value::{Value, ValueModel};
use crate::yaml::{YamlError, YamlErrorModel};

verus! {

/// What a scalar stands for. A number is given by its syntax: a decimal
/// literal, or the exactly read value of octal or hexadecimal digits and
/// the count of the digits after them.
#[derive(Copy, Clone, Debug, PartialEq, Eq, Structural)]
pub enum ScalarClass {
    Null,
    Bool(bool),
    Decimal,
    Octal(u128, usize),
    Hex(u128, usize),
    Text,
}

/// The model of a [`ScalarClass`].
pub enum ScalarClassModel {
    Null,
    Bool(bool),
    Decimal,
    Octal(nat, nat),
    Hex(nat, nat),
    Text,
}

impl View for ScalarClass {
    type V = ScalarClassModel;

    open spec fn view(&self) -> ScalarClassModel {
        match *self {
            ScalarClass::Null => ScalarClassModel::Null,
            ScalarClass::Bool(b) => ScalarClassModel::Bool(b),
            ScalarClass::Decimal => ScalarClassModel::Decimal,
            ScalarClass::Octal(v, n) => ScalarClassModel::Octal(v as nat, n as nat),
            ScalarClass::Hex(v, n) => ScalarClassModel::Hex(v as nat, n as nat),
            ScalarClass::Text => ScalarClassModel::Text,
        }
    }
}

/// A decimal digit.
pub open spec fn is_digit(c: char) -> bool {
    '0' <= c && c <= '9'
}

/// Whether every character is a decimal digit.
pub open spec fn all_digits(s: Seq<char>) -> bool {
    forall|i: int| 0 <= i < s.len() ==> is_digit(#[trigger] s[i])
}

/// The first position at or after `i` that holds `a` or `b`, or the length.
pub open spec fn first_of(s: Seq<char>, i: int, a: char, b: char) -> int
    decreases s.len() - i,
{
    if i < 0 || i >= s.len() {
        s.len() as int
    } else if s[i] == a || s[i] == b {
        i
    } else {
        first_of(s, i + 1, a, b)
    }
}

/// `s` without a leading `+` or `-`.
pub open spec fn unsigned_part(s: Seq<char>) -> Seq<char> {
    if s.len() > 0 && (s[0] == '+' || s[0] == '-') {
        s.subrange(1, s.len() as int)
    } else {
        s
    }
}

/// Digits with at most one `.`, and a digit on at least one side of it.
pub open spec fn is_decimal_mantissa(m: Seq<char>) -> bool {
    let p = first_of(m, 0, '.', '.');
    if p == m.len() {
        m.len() > 0 && all_digits(m)
    } else {
        all_digits(m.subrange(0, p)) && all_digits(m.subrange(p + 1, m.len() as int)) && (p > 0 || p + 1
            < m.len())
    }
}

/// A decimal number: an optional sign, a mantissa, and an optional `e` or
/// `E` followed by an optionally signed run of digits.
pub open spec fn is_decimal_number(s: Seq<char>) -> bool {
    let u = unsigned_part(s);
    let q = first_of(u, 0, 'e', 'E');
    is_decimal_mantissa(u.subrange(0, q)) && (q == u.len() || {
        let d = unsigned_part(u.subrange(q + 1, u.len() as int));
        d.len() > 0 && all_digits(d)
    })
}

/// The plain scalars that stand for `null`.
pub open spec fn is_null_word(s: Seq<char>) -> bool {
    s == "null"@ || s == "Null"@ || s == "NULL"@ || s == "~"@
}

/// The plain scalars that stand for `true`.
pub open spec fn is_true_word(s: Seq<char>) -> bool {
    s == "true"@ || s == "True"@ || s == "TRUE"@
}

/// The plain scalars that stand for `false`.
pub open spec fn is_false_word(s: Seq<char>) -> bool {
    s == "false"@ || s == "False"@ || s == "FALSE"@
}

/// Whether `s` begins with `0` and then `c`.
pub open spec fn has_radix_prefix(s: Seq<char>, c: char) -> bool {
    s.len() >= 2 && s[0] == '0' && s[1] == c
}

/// What a scalar stands for, given whether it was written plain (without
/// quotes or block markers) and its text.
pub open spec fn scalar_class_model(plain: bool, s: Seq<char>) -> ScalarClassModel {
    let rest = s.subrange(2, s.len() as int);
    if !plain {
        ScalarClassModel::Text
    } else if is_null_word(s) {
        ScalarClassModel::Null
    } else if is_true_word(s) {
        ScalarClassModel::Bool(true)
    } else if is_false_word(s) {
        ScalarClassModel::Bool(false)
    } else if is_decimal_number(s) {
        ScalarClassModel::Decimal
    } else if has_radix_prefix(s, 'o') && radix_parse_model(rest, 8) is Ok {
        ScalarClassModel::Octal(radix_parse_model(rest, 8)->Ok_0.0, radix_parse_model(rest, 8)->Ok_0.1)
    } else if has_radix_prefix(s, 'x') && radix_parse_model(rest, 16) is Ok {
        ScalarClassModel::Hex(radix_parse_model(rest, 16)->Ok_0.0, radix_parse_model(rest, 16)->Ok_0.1)
    } else {
        ScalarClassModel::Text
    }
}

/// Whether the digits after a `0o` or `0x` prefix of a plain scalar can be
/// cut at 128 bits between two characters.
pub open spec fn scalar_cut_ok(plain: bool, s: Seq<char>) -> bool {
    let rest = s.subrange(2, s.len() as int);
    plain ==> (has_radix_prefix(s, 'o') ==> radix_cut_ok(rest, 8)) && (has_radix_prefix(s, 'x')
        ==> radix_cut_ok(rest, 16))
}

fn all_digits_in(cs: &Vec<char>, a: usize, b: usize) -> (res: bool)
    requires
        a <= b <= cs.len(),
    ensures
        res == all_digits(cs@.subrange(a as int, b as int)),
{
    let mut i = a;
    while i < b
        invariant
            a <= i <= b <= cs.len(),
            forall|j: int| a <= j < i ==> is_digit(#[trigger] cs@[j]),
        decreases b - i,
    {
        if !('0' <= cs[i] && cs[i] <= '9') {
            proof {
                assert(!is_digit(cs@.subrange(a as int, b as int)[i - a]));
            }
            return false;
        }
        i += 1;
    }
    proof {
        let sub = cs@.subrange(a as int, b as int);
        assert forall|j: int| 0 <= j < sub.len() implies is_digit(#[trigger] sub[j]) by {
            assert(sub[j] == cs@[a + j]);
        }
    }
    true
}

fn first_of_in(cs: &Vec<char>, a: usize, b: usize, x: char, y: char) -> (res: usize)
    requires
        a <= b <= cs.len(),
    ensures
        a <= res <= b,
        res as int == a + first_of(cs@.subrange(a as int, b as int), 0, x, y),
{
    let ghost sub = cs@.subrange(a as int, b as int);
    let mut i = a;
    while i < b && cs[i] != x && cs[i] != y
        invariant
            a <= i <= b <= cs.len(),
            sub == cs@.subrange(a as int, b as int),
            first_of(sub, 0, x, y) == first_of(sub, i - a, x, y),
        decreases b - i,
    {
        proof {
            assert(sub[i - a] == cs@[i as int]);
        }
        i += 1;
    }
    proof {
        if i < b {
            assert(sub[i - a] == cs@[i as int]);
        }
    }
    i
}

/// The start of the part of `cs[a..b]` after an optional sign.
fn skip_sign(cs: &Vec<char>, a: usize, b: usize) -> (res: usize)
    requires
        a <= b <= cs.len(),
    ensures
        a <= res <= b,
        cs@.subrange(res as int, b as int) == unsigned_part(cs@.subrange(a as int, b as int)),
{
    if a < b && (cs[a] == '+' || cs[a] == '-') {
        proof {
            let sub = cs@.subrange(a as int, b as int);
            assert(sub[0] == cs@[a as int]);
            assert(sub.subrange(1, sub.len() as int) =~= cs@.subrange(a + 1, b as int));
        }
        a + 1
    } else {
        proof {
            let sub = cs@.subrange(a as int, b as int);
            if a < b {
                assert(sub[0] == cs@[a as int]);
            }
        }
        a
    }
}

fn is_decimal_mantissa_in(cs: &Vec<char>, a: usize, b: usize) -> (res: bool)
    requires
        a <= b <= cs.len(),
    ensures
        res == is_decimal_mantissa(cs@.subrange(a as int, b as int)),
{
    let ghost m = cs@.subrange(a as int, b as int);
    let p = first_of_in(cs, a, b, '.', '.');
    if p == b {
        b > a && all_digits_in(cs, a, b)
    } else {
        proof {
            assert(m.subrange(0, p - a) =~= cs@.subrange(a as int, p as int));
            assert(m.subrange(p - a + 1, m.len() as int) =~= cs@.subrange(p + 1, b as int));
        }
        all_digits_in(cs, a, p) && all_digits_in(cs, p + 1, b) && (p > a || p + 1 < b)
    }
}

/// Whether a text is a decimal number as YAML plain scalars write one.
pub fn is_decimal_number_text(s: &str) -> (res: bool)
    ensures
        res == is_decimal_number(s@),
{
    let cs = chars_of(s);
    let n = cs.len();
    let a = skip_sign(&cs, 0, n);
    proof {
        assert(cs@.subrange(0, n as int) =~= s@);
    }
    let ghost u = unsigned_part(s@);
    let q = first_of_in(&cs, a, n, 'e', 'E');
    proof {
        assert(u.subrange(0, q - a) =~= cs@.subrange(a as int, q as int));
    }
    if !is_decimal_mantissa_in(&cs, a, q) {
        return false;
    }
    if q == n {
        return true;
    }
    proof {
        assert(u.subrange(q - a + 1, u.len() as int) =~= cs@.subrange(q + 1, n as int));
    }
    let d = skip_sign(&cs, q + 1, n);
    d < n && all_digits_in(&cs, d, n)
}

/// Whether [`classify_scalar`] can take the scalar: the digits after a
/// `0o` or `0x` prefix of a plain scalar end their first 128 bits between
/// two characters.
pub fn scalar_fits(plain: bool, s: &str) -> (res: bool)
    ensures
        res == scalar_cut_ok(plain, s@),
{
    if !plain {
        return true;
    }
    let cs = chars_of(s);
    let n = cs.len();
    if n >= 2 && cs[0] == '0' && (cs[1] == 'o' || cs[1] == 'x') {
        let rest = substr(s, 2, n - 2);
        proof {
            assert(rest@ =~= s@.subrange(2, s@.len() as int));
        }
        if cs[1] == 'o' {
            radix_cut_fits(rest.as_str(), 8)
        } else {
            radix_cut_fits(rest.as_str(), 16)
        }
    } else {
        true
    }
}

/// Classifies a scalar as the YAML reader does: a quoted or block scalar is
/// a string; a plain one is `null`, a boolean, a decimal, octal (`0o`) or
/// hexadecimal (`0x`) number, or else a string.
pub fn classify_scalar(plain: bool, s: &str) -> (res: ScalarClass)
    requires
        scalar_cut_ok(plain, s@),
    ensures
        res@ == scalar_class_model(plain, s@),
{
    if !plain {
        return ScalarClass::Text;
    }
    if str_eq(s, "null") || str_eq(s, "Null") || str_eq(s, "NULL") || str_eq(s, "~") {
        return ScalarClass::Null;
    }
    if str_eq(s, "true") || str_eq(s, "True") || str_eq(s, "TRUE") {
        return ScalarClass::Bool(true);
    }
    if str_eq(s, "false") || str_eq(s, "False") || str_eq(s, "FALSE") {
        return ScalarClass::Bool(false);
    }
    if is_decimal_number_text(s) {
        return ScalarClass::Decimal;
    }
    let cs = chars_of(s);
    let n = cs.len();
    if n >= 2 && cs[0] == '0' && (cs[1] == 'o' || cs[1] == 'x') {
        let rest = substr(s, 2, n - 2);
        proof {
            assert(rest@ =~= s@.subrange(2, s@.len() as int));
        }
        if cs[1] == 'o' {
            if let Ok((v, k)) = parse_radix_digits(rest.as_str(), 8) {
                return ScalarClass::Octal(v, k);
            }
        } else {
            if let Ok((v, k)) = parse_radix_digits(rest.as_str(), 16) {
                return ScalarClass::Hex(v, k);
            }
        }
    }
    ScalarClass::Text
}

/// The value of a scalar once it is classified. `number` is the decimal text
/// of the number that a numeric class stands for, or `None` where that
/// number is not finite.
pub fn scalar_value(s: &str, class: ScalarClass, number: Option<String>) -> (res: Result<Value, YamlError>)
    ensures
        match class@ {
            ScalarClassModel::Null => res matches Ok(v) && v@ == ValueModel::Null,
            ScalarClassModel::Bool(b) => res matches Ok(v) && v@ == ValueModel::Bool(b),
            ScalarClassModel::Text => res matches Ok(v) && v@ == ValueModel::String(s@),
            _ => match number {
                Some(t) => res matches Ok(v) && v@ == ValueModel::Number(t@),
                None => res matches Err(e) && e@ == YamlErrorModel::NumberOverflow,
            },
        },
{
    match class {
        ScalarClass::Null => Ok(Value::Null),
        ScalarClass::Bool(b) => Ok(Value::Bool(b)),
        ScalarClass::Text => Ok(Value::String(String::from_str(s))),
        _ => match number {
            Some(t) => Ok(Value::Number(t)),
            None => Err(YamlError::NumberOverflow),
        },
    }
}

} // verus!
