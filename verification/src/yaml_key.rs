//! Which strings YAML reads back as the same string when written without
//! quotes.

use vstd::prelude::*;

verus! {

/// The classes of characters that the plain-scalar checks look at.
#[derive(Copy, Clone, Debug, PartialEq, Eq, Structural)]
pub enum CharClass {
    /// Digits, ASCII letters, `/`, `_`, `-` and `.`.
    Plain,
    /// Digits and `-`.
    Date,
    /// Digits, `_` and `-`.
    Int,
    /// Digits, `b`, `B`, `_` and `-`.
    Bin,
    /// Hexadecimal digits, `x`, `X`, `_` and `-`.
    Hex,
    /// Digits, `e`, `E`, `_`, `-` and `.`.
    Float,
}

/// Whether `c` is an ASCII digit.
pub open spec fn is_digit(c: char) -> bool {
    '0' <= c && c <= '9'
}

/// Whether `c` belongs to the class `k`.
pub open spec fn in_class(c: char, k: CharClass) -> bool {
    match k {
        CharClass::Plain => is_digit(c) || ('A' <= c && c <= 'Z') || ('a' <= c && c <= 'z') || c == '/'
            || c == '_' || c == '-' || c == '.',
        CharClass::Date => is_digit(c) || c == '-',
        CharClass::Int => is_digit(c) || c == '_' || c == '-',
        CharClass::Bin => is_digit(c) || c == 'b' || c == 'B' || c == '_' || c == '-',
        CharClass::Hex => is_digit(c) || ('a' <= c && c <= 'f') || ('A' <= c && c <= 'F') || c == 'x'
            || c == 'X' || c == '_' || c == '-',
        CharClass::Float => is_digit(c) || c == 'e' || c == 'E' || c == '_' || c == '-' || c == '.',
    }
}

/// Whether every character of `s` belongs to the class `k`.
pub open spec fn all_in(s: Seq<char>, k: CharClass) -> bool {
    forall|i: int| 0 <= i < s.len() ==> in_class(#[trigger] s[i], k)
}

/// How many times `c` occurs in `s`.
pub open spec fn count_of(s: Seq<char>, c: char) -> nat
    decreases s.len(),
{
    if s.len() == 0 {
        0
    } else {
        count_of(s.drop_last(), c) + if s.last() == c {
            1nat
        } else {
            0nat
        }
    }
}

/// An ASCII upper-case letter turned to lower case; any other character unchanged.
pub open spec fn ascii_lower(c: char) -> char {
    if 'A' <= c && c <= 'Z' {
        ((c as u32) + 32) as char
    } else {
        c
    }
}

/// Whether two strings are equal once ASCII letters are put in lower case.
pub open spec fn eq_ignore_ascii_case(s: Seq<char>, t: Seq<char>) -> bool {
    s.len() == t.len() && forall|i: int| 0 <= i < s.len() ==> ascii_lower(#[trigger] s[i]) == ascii_lower(t[i])
}

/// The words that YAML reads as something other than a string.
pub open spec fn yaml_special_words() -> Seq<Seq<char>> {
    seq![
        seq!['n', 'u', 'l', 'l'],
        seq!['t', 'r', 'u', 'e'],
        seq!['y'],
        seq!['y', 'e', 's'],
        seq!['o', 'n'],
        seq!['f', 'a', 'l', 's', 'e'],
        seq!['n'],
        seq!['n', 'o'],
        seq!['o', 'f', 'f'],
        seq!['.', 'n', 'a', 'n'],
        seq!['.', 'i', 'n', 'f'],
        seq!['+', '.', 'i', 'n', 'f'],
        seq!['-', '.', 'i', 'n', 'f'],
    ]
}

/// Whether `s` is one of the special words, in any case.
pub open spec fn is_yaml_special(s: Seq<char>) -> bool {
    exists|j: int| 0 <= j < yaml_special_words().len() && eq_ignore_ascii_case(s, #[trigger] yaml_special_words()[j])
}

/// Whether `s` starts with `0` and `x`, or with `-`, `0` and `x`.
pub open spec fn has_radix_prefix(s: Seq<char>, x: char) -> bool {
    (s.len() >= 2 && s[0] == '0' && s[1] == x) || (s.len() >= 3 && s[0] == '-' && s[1] == '0' && s[2] == x)
}

/// Whether `s` can stand in YAML without quotes and still be read as the
/// string `s`.
pub open spec fn is_safe_yaml_plain_model(s: Seq<char>) -> bool {
    &&& !(s.len() == 0 || s == seq!['-'] || s == seq!['-', '-', '-'])
    &&& all_in(s, CharClass::Plain)
    &&& !is_yaml_special(s)
    &&& !(all_in(s, CharClass::Date) && count_of(s, '-') == 2)
    &&& !(all_in(s, CharClass::Int) && count_of(s, '-') <= 1)
    &&& !(has_radix_prefix(s, 'b') && all_in(s, CharClass::Bin) && count_of(s, '-') <= 1)
    &&& !(has_radix_prefix(s, 'x') && all_in(s, CharClass::Hex) && count_of(s, '-') <= 1)
    &&& !(all_in(s, CharClass::Float) && count_of(s, '.') == 1 && count_of(s, '-') <= 2 && count_of(s, 'e')
        + count_of(s, 'E') <= 1)
}

fn char_in_class(c: char, k: CharClass) -> (res: bool)
    ensures
        res == in_class(c, k),
{
    let digit = '0' <= c && c <= '9';
    match k {
        CharClass::Plain => digit || ('A' <= c && c <= 'Z') || ('a' <= c && c <= 'z') || c == '/' || c == '_'
            || c == '-' || c == '.',
        CharClass::Date => digit || c == '-',
        CharClass::Int => digit || c == '_' || c == '-',
        CharClass::Bin => digit || c == 'b' || c == 'B' || c == '_' || c == '-',
        CharClass::Hex => digit || ('a' <= c && c <= 'f') || ('A' <= c && c <= 'F') || c == 'x' || c == 'X'
            || c == '_' || c == '-',
        CharClass::Float => digit || c == 'e' || c == 'E' || c == '_' || c == '-' || c == '.',
    }
}

/// Whether every character of `s` belongs to the class `k`.
fn all_chars_in(s: &[char], k: CharClass) -> (res: bool)
    ensures
        res == all_in(s@, k),
{
    let mut i: usize = 0;
    while i < s.len()
        invariant
            0 <= i <= s@.len(),
            forall|j: int| 0 <= j < i ==> in_class(#[trigger] s@[j], k),
        decreases s@.len() - i,
    {
        if !char_in_class(s[i], k) {
            return false;
        }
        i += 1;
    }
    true
}

proof fn lemma_count_bound(s: Seq<char>, c: char)
    ensures
        count_of(s, c) <= s.len(),
    decreases s.len(),
{
    if s.len() > 0 {
        lemma_count_bound(s.drop_last(), c);
    }
}

/// How many times `c` occurs in `s`.
fn count_chars(s: &[char], c: char) -> (res: usize)
    ensures
        res == count_of(s@, c),
{
    let mut n: usize = 0;
    let mut i: usize = 0;
    while i < s.len()
        invariant
            0 <= i <= s@.len(),
            n == count_of(s@.subrange(0, i as int), c),
        decreases s@.len() - i,
    {
        proof {
            assert(s@.subrange(0, i + 1).drop_last() =~= s@.subrange(0, i as int));
            lemma_count_bound(s@.subrange(0, i as int), c);
        }
        if s[i] == c {
            n += 1;
        }
        i += 1;
    }
    proof {
        assert(s@.subrange(0, i as int) =~= s@);
    }
    n
}

fn lower_ascii(c: char) -> (res: char)
    ensures
        res == ascii_lower(c),
{
    if 'A' <= c && c <= 'Z' {
        let u: u32 = (c as u32) + 32;
        proof {
            assert(0x61 <= u <= 0x7A);
        }
        (u as u8) as char
    } else {
        c
    }
}

/// Whether `s` equals the word `w` once ASCII letters are put in lower case.
fn eq_ignore_case(s: &[char], w: &[char]) -> (res: bool)
    ensures
        res == eq_ignore_ascii_case(s@, w@),
{
    if s.len() != w.len() {
        return false;
    }
    let mut i: usize = 0;
    while i < s.len()
        invariant
            0 <= i <= s@.len(),
            s@.len() == w@.len(),
            forall|j: int| 0 <= j < i ==> ascii_lower(#[trigger] s@[j]) == ascii_lower(w@[j]),
        decreases s@.len() - i,
    {
        if lower_ascii(s[i]) != lower_ascii(w[i]) {
            return false;
        }
        i += 1;
    }
    true
}

fn special_words() -> (res: Vec<Vec<char>>)
    ensures
        res@.len() == yaml_special_words().len(),
        forall|j: int| 0 <= j < res@.len() ==> (#[trigger] res@[j])@ == yaml_special_words()[j],
{
    let res = vec![
        vec!['n', 'u', 'l', 'l'],
        vec!['t', 'r', 'u', 'e'],
        vec!['y'],
        vec!['y', 'e', 's'],
        vec!['o', 'n'],
        vec!['f', 'a', 'l', 's', 'e'],
        vec!['n'],
        vec!['n', 'o'],
        vec!['o', 'f', 'f'],
        vec!['.', 'n', 'a', 'n'],
        vec!['.', 'i', 'n', 'f'],
        vec!['+', '.', 'i', 'n', 'f'],
        vec!['-', '.', 'i', 'n', 'f'],
    ];
    proof {
        assert(res@[0]@ == yaml_special_words()[0]);
        assert(res@[1]@ == yaml_special_words()[1]);
        assert(res@[2]@ == yaml_special_words()[2]);
        assert(res@[3]@ == yaml_special_words()[3]);
        assert(res@[4]@ == yaml_special_words()[4]);
        assert(res@[5]@ == yaml_special_words()[5]);
        assert(res@[6]@ == yaml_special_words()[6]);
        assert(res@[7]@ == yaml_special_words()[7]);
        assert(res@[8]@ == yaml_special_words()[8]);
        assert(res@[9]@ == yaml_special_words()[9]);
        assert(res@[10]@ == yaml_special_words()[10]);
        assert(res@[11]@ == yaml_special_words()[11]);
        assert(res@[12]@ == yaml_special_words()[12]);
    }
    res
}

/// Whether `s` is one of the special words, in any case.
fn is_special(s: &[char]) -> (res: bool)
    ensures
        res == is_yaml_special(s@),
{
    let words = special_words();
    let mut j: usize = 0;
    while j < words.len()
        invariant
            0 <= j <= words@.len(),
            words@.len() == yaml_special_words().len(),
            forall|k: int| 0 <= k < words@.len() ==> (#[trigger] words@[k])@ == yaml_special_words()[k],
            forall|k: int| 0 <= k < j ==> !eq_ignore_ascii_case(s@, #[trigger] yaml_special_words()[k]),
        decreases words@.len() - j,
    {
        if eq_ignore_case(s, words[j].as_slice()) {
            proof {
                assert(eq_ignore_ascii_case(s@, yaml_special_words()[j as int]));
            }
            return true;
        }
        j += 1;
    }
    false
}

fn radix_prefix(s: &[char], x: char) -> (res: bool)
    ensures
        res == has_radix_prefix(s@, x),
{
    (s.len() >= 2 && s[0] == '0' && s[1] == x) || (s.len() >= 3 && s[0] == '-' && s[1] == '0' && s[2] == x)
}

/// Whether `s` can stand in YAML without quotes and still be read as the
/// string `s`.
pub fn is_safe_yaml_plain(s: &[char]) -> (res: bool)
    ensures
        res == is_safe_yaml_plain_model(s@),
{
    if s.len() == 0 || (s.len() == 1 && s[0] == '-') || (s.len() == 3 && s[0] == '-' && s[1] == '-' && s[2]
        == '-') {
        proof {
            if s@.len() == 1 {
                assert(s@ =~= seq!['-']);
            }
            if s@.len() == 3 {
                assert(s@ =~= seq!['-', '-', '-']);
            }
        }
        return false;
    }
    proof {
        if s@ == seq!['-'] {
            assert(s@[0] == '-');
        }
        if s@ == seq!['-', '-', '-'] {
            assert(s@[0] == '-' && s@[1] == '-' && s@[2] == '-');
        }
    }
    if !all_chars_in(s, CharClass::Plain) {
        return false;
    }
    if is_special(s) {
        return false;
    }
    let dashes = count_chars(s, '-');
    if all_chars_in(s, CharClass::Date) && dashes == 2 {
        return false;
    }
    if all_chars_in(s, CharClass::Int) && dashes <= 1 {
        return false;
    }
    if radix_prefix(s, 'b') && all_chars_in(s, CharClass::Bin) && dashes <= 1 {
        return false;
    }
    if radix_prefix(s, 'x') && all_chars_in(s, CharClass::Hex) && dashes <= 1 {
        return false;
    }
    if all_chars_in(s, CharClass::Float) && count_chars(s, '.') == 1 && dashes <= 2 {
        let e_lower = count_chars(s, 'e');
        let e_upper = count_chars(s, 'E');
        if e_lower <= 1 && e_upper <= 1 - e_lower {
            return false;
        }
    }
    true
}

} // verus!
