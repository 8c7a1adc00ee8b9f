//! The string functions of the standard library.

use vstd::prelude::*;
use crate::text::{chars_of, string_from_chars, push_str, push_chars, debug_char, debug_char_text, debug_str, debug_str_text, concat_str, char_from_u32, is_scalar};
use crate::error::{EvalErrorKind, is_other_error, other_error};
use crate::yaml_key::{ascii_lower, eq_ignore_ascii_case};
use crate::format::{decimal_text, int_digits};

verus! {

/// Whether `pat` occurs in `s` at position `i`.
pub open spec fn occurs_at(s: Seq<char>, pat: Seq<char>, i: int) -> bool {
    0 <= i && i + pat.len() <= s.len() && s.subrange(i, i + pat.len()) == pat
}

/// The characters of `s` from `from` on, at most `len` of them.
pub open spec fn substr_model(s: Seq<char>, from: nat, len: nat) -> Seq<char> {
    let a = if from < s.len() {
        from as int
    } else {
        s.len() as int
    };
    let b = if from + len < s.len() {
        (from + len) as int
    } else {
        s.len() as int
    };
    s.subrange(a, b)
}

/// The positions, from `from` on and in order, where `pat` occurs in `s`;
/// none for an empty pattern.
pub open spec fn match_positions(s: Seq<char>, pat: Seq<char>, from: int) -> Seq<int>
    decreases s.len() - from,
{
    if pat.len() == 0 || from < 0 || from + pat.len() > s.len() {
        seq![]
    } else {
        (if occurs_at(s, pat, from) {
            seq![from]
        } else {
            seq![]
        }) + match_positions(s, pat, from + 1)
    }
}

/// The first position at or after `from` where `pat` occurs, or -1.
pub open spec fn first_match(s: Seq<char>, pat: Seq<char>, from: int) -> int
    decreases s.len() - from,
{
    if from < 0 || from + pat.len() > s.len() {
        -1
    } else if occurs_at(s, pat, from) {
        from
    } else if from >= s.len() {
        -1
    } else {
        first_match(s, pat, from + 1)
    }
}

/// The last position where `pat` occurs and ends at or before `to`, or -1.
pub open spec fn last_match(s: Seq<char>, pat: Seq<char>, to: int) -> int
    decreases to,
{
    if to < pat.len() || to > s.len() {
        -1
    } else if occurs_at(s, pat, to - pat.len()) {
        to - pat.len()
    } else if to <= 0 {
        -1
    } else {
        last_match(s, pat, to - 1)
    }
}

/// The characters that `std.trim` removes.
pub open spec fn is_trim_char(c: char) -> bool {
    c == '\t' || c == '\n' || c == '\u{0C}' || c == '\r' || c == ' ' || c == '\u{85}' || c == '\u{A0}'
}

/// The first position at or after `i` whose character is not in `set`.
pub open spec fn lstrip_from(s: Seq<char>, set: Seq<char>, i: int) -> int
    decreases s.len() - i,
{
    if 0 <= i < s.len() && set.contains(s[i]) {
        lstrip_from(s, set, i + 1)
    } else {
        i
    }
}

/// The end of `s` up to `j` once the characters in `set` are removed from
/// its end.
pub open spec fn rstrip_to(s: Seq<char>, set: Seq<char>, j: int) -> int
    decreases j,
{
    if 0 < j <= s.len() && set.contains(s[j - 1]) {
        rstrip_to(s, set, j - 1)
    } else {
        j
    }
}

/// `s` without the characters of `set` at its start.
pub open spec fn lstrip_model(s: Seq<char>, set: Seq<char>) -> Seq<char> {
    s.subrange(lstrip_from(s, set, 0), s.len() as int)
}

/// `s` without the characters of `set` at its end.
pub open spec fn rstrip_model(s: Seq<char>, set: Seq<char>) -> Seq<char> {
    s.subrange(0, rstrip_to(s, set, s.len() as int))
}

/// `s` without the characters of `set` at either end.
pub open spec fn strip_model(s: Seq<char>, set: Seq<char>) -> Seq<char> {
    rstrip_model(lstrip_model(s, set), set)
}

/// The whitespace that `std.trim` removes.
pub open spec fn trim_set() -> Seq<char> {
    seq!['\t', '\n', '\u{0C}', '\r', ' ', '\u{85}', '\u{A0}']
}

/// An ASCII lower-case letter turned to upper case; any other character unchanged.
pub open spec fn ascii_upper(c: char) -> char {
    if 'a' <= c && c <= 'z' {
        ((c as u32) - 32) as char
    } else {
        c
    }
}

/// A string with its characters mapped by `f`.
pub open spec fn map_chars(s: Seq<char>, f: spec_fn(char) -> char) -> Seq<char> {
    s.map_values(f)
}

/// The text of a string between single quotes for a POSIX shell.
pub open spec fn bash_body(s: Seq<char>) -> Seq<char>
    decreases s.len(),
{
    if s.len() == 0 {
        seq![]
    } else {
        bash_body(s.drop_last()) + if s.last() == '\'' {
            seq!['\'', '"', '\'', '"', '\'']
        } else {
            seq![s.last()]
        }
    }
}

/// Each `$` doubled.
pub open spec fn dollars_body(s: Seq<char>) -> Seq<char>
    decreases s.len(),
{
    if s.len() == 0 {
        seq![]
    } else {
        dollars_body(s.drop_last()) + if s.last() == '$' {
            seq!['$', '$']
        } else {
            seq![s.last()]
        }
    }
}

/// How XML text writes one character.
pub open spec fn xml_escape_char(c: char) -> Seq<char> {
    if c == '<' {
        seq!['&', 'l', 't', ';']
    } else if c == '>' {
        seq!['&', 'g', 't', ';']
    } else if c == '&' {
        seq!['&', 'a', 'm', 'p', ';']
    } else if c == '"' {
        seq!['&', 'q', 'u', 'o', 't', ';']
    } else if c == '\'' {
        seq!['&', 'a', 'p', 'o', 's', ';']
    } else {
        seq![c]
    }
}

/// The XML text of a string.
pub open spec fn xml_body(s: Seq<char>) -> Seq<char>
    decreases s.len(),
{
    if s.len() == 0 {
        seq![]
    } else {
        xml_body(s.drop_last()) + xml_escape_char(s.last())
    }
}

/// The characters of `s` from `from` on, at most `len` of them (`std.substr`).
pub fn substr(s: &str, from: usize, len: usize) -> (res: String)
    ensures
        res@ == substr_model(s@, from as nat, len as nat),
{
    let cs = chars_of(s);
    let n = cs.len();
    let a = if from < n {
        from
    } else {
        n
    };
    let b = if len < n - a {
        a + len
    } else {
        n
    };
    let mut out: Vec<char> = Vec::new();
    let mut i = a;
    while i < b
        invariant
            a <= i <= b <= n,
            n == cs@.len(),
            cs@ == s@,
            out@ == cs@.subrange(a as int, i as int),
        decreases b - i,
    {
        out.push(cs[i]);
        i += 1;
        proof {
            assert(out@ =~= cs@.subrange(a as int, i as int));
        }
    }
    string_from_chars(out.as_slice())
}

/// Whether `pat` occurs in `s` at position `i`.
fn occurs_at_exec(s: &[char], pat: &[char], i: usize) -> (res: bool)
    ensures
        res == occurs_at(s@, pat@, i as int),
{
    let n = s.len();
    if pat.len() > n || i > n - pat.len() {
        return false;
    }
    let mut k: usize = 0;
    while k < pat.len()
        invariant
            0 <= k <= pat@.len(),
            n == s@.len(),
            i + pat@.len() <= s@.len(),
            forall|j: int| 0 <= j < k ==> s@[i + j] == pat@[j],
        decreases pat@.len() - k,
    {
        if s[i + k] != pat[k] {
            proof {
                assert(s@.subrange(i as int, i + pat@.len())[k as int] != pat@[k as int]);
            }
            return false;
        }
        k += 1;
    }
    proof {
        assert(s@.subrange(i as int, i + pat@.len()) =~= pat@);
    }
    true
}

/// The character positions where `pat` occurs in `s`, in order, matches
/// allowed to overlap; none for an empty pattern (`std.findSubstr`).
pub fn find_substr(pat: &str, s: &str) -> (res: Vec<usize>)
    ensures
        res@.map_values(|x: usize| x as int) == match_positions(s@, pat@, 0),
{
    let p = chars_of(pat);
    let cs = chars_of(s);
    let mut res: Vec<usize> = Vec::new();
    if p.len() == 0 || p.len() > cs.len() {
        proof {
            assert(res@.map_values(|x: usize| x as int) =~= Seq::<int>::empty());
        }
        return res;
    }
    let last = cs.len() - p.len();
    let mut i: usize = 0;
    while i <= last
        invariant
            0 <= i <= last + 1,
            last < usize::MAX,
            last == cs@.len() - p@.len(),
            p@.len() > 0,
            p@ == pat@,
            cs@ == s@,
            res@.map_values(|x: usize| x as int) + match_positions(cs@, p@, i as int) == match_positions(
                cs@,
                p@,
                0,
            ),
        decreases last + 1 - i,
    {
        let ghost before = res@;
        if occurs_at_exec(cs.as_slice(), p.as_slice(), i) {
            res.push(i);
        }
        proof {
            let hit = if occurs_at(cs@, p@, i as int) {
                seq![i as int]
            } else {
                Seq::<int>::empty()
            };
            assert(res@.map_values(|x: usize| x as int) =~= before.map_values(|x: usize| x as int) + hit);
            assert(match_positions(cs@, p@, i as int) == hit + match_positions(cs@, p@, i + 1));
            assert(before.map_values(|x: usize| x as int) + (hit + match_positions(cs@, p@, i + 1))
                =~= res@.map_values(|x: usize| x as int) + match_positions(cs@, p@, i + 1));
        }
        i += 1;
    }
    proof {
        assert(match_positions(cs@, p@, i as int) =~= Seq::<int>::empty());
        assert(res@.map_values(|x: usize| x as int) + Seq::<int>::empty() =~= res@.map_values(|x: usize| x as int));
    }
    res
}

/// Whether `a` starts with `b` (`std.startsWith`).
pub fn starts_with(a: &str, b: &str) -> (res: bool)
    ensures
        res == (b@.len() <= a@.len() && a@.subrange(0, b@.len() as int) == b@),
{
    let x = chars_of(a);
    let y = chars_of(b);
    if y.len() > x.len() {
        return false;
    }
    let r = occurs_at_exec(x.as_slice(), y.as_slice(), 0);
    r
}

/// Whether `a` ends with `b` (`std.endsWith`).
pub fn ends_with(a: &str, b: &str) -> (res: bool)
    ensures
        res == (b@.len() <= a@.len() && a@.subrange(a@.len() - b@.len(), a@.len() as int) == b@),
{
    let x = chars_of(a);
    let y = chars_of(b);
    if y.len() > x.len() {
        return false;
    }
    let r = occurs_at_exec(x.as_slice(), y.as_slice(), x.len() - y.len());
    r
}

fn contains_char(set: &[char], c: char) -> (res: bool)
    ensures
        res == set@.contains(c),
{
    let mut i: usize = 0;
    while i < set.len()
        invariant
            0 <= i <= set@.len(),
            forall|j: int| 0 <= j < i ==> set@[j] != c,
        decreases set@.len() - i,
    {
        if set[i] == c {
            proof {
                assert(set@[i as int] == c);
            }
            return true;
        }
        i += 1;
    }
    false
}

fn copy_range(s: &[char], a: usize, b: usize) -> (res: String)
    requires
        a <= b <= s@.len(),
    ensures
        res@ == s@.subrange(a as int, b as int),
{
    let mut out: Vec<char> = Vec::new();
    let mut i = a;
    while i < b
        invariant
            a <= i <= b <= s@.len(),
            out@ == s@.subrange(a as int, i as int),
        decreases b - i,
    {
        out.push(s[i]);
        i += 1;
        proof {
            assert(out@ =~= s@.subrange(a as int, i as int));
        }
    }
    string_from_chars(out.as_slice())
}

fn lstrip_index(s: &[char], set: &[char]) -> (res: usize)
    ensures
        res as int == lstrip_from(s@, set@, 0),
{
    let mut i: usize = 0;
    while i < s.len() && contains_char(set, s[i])
        invariant
            0 <= i <= s@.len(),
            lstrip_from(s@, set@, 0) == lstrip_from(s@, set@, i as int),
        decreases s@.len() - i,
    {
        i += 1;
    }
    i
}

fn rstrip_index(s: &[char], set: &[char], to: usize) -> (res: usize)
    requires
        to <= s@.len(),
    ensures
        res as int == rstrip_to(s@, set@, to as int),
{
    let mut j = to;
    while j > 0 && contains_char(set, s[j - 1])
        invariant
            0 <= j <= to <= s@.len(),
            rstrip_to(s@, set@, to as int) == rstrip_to(s@, set@, j as int),
        decreases j,
    {
        j -= 1;
    }
    j
}

/// `s` without the characters of `chars` at its start (`std.lstripChars`).
pub fn lstrip_chars(s: &str, chars: &str) -> (res: String)
    ensures
        res@ == lstrip_model(s@, chars@),
{
    let cs = chars_of(s);
    let set = chars_of(chars);
    let a = lstrip_index(cs.as_slice(), set.as_slice());
    proof {
        lemma_lstrip_bounds(cs@, set@, 0);
    }
    copy_range(cs.as_slice(), a, cs.len())
}

/// `s` without the characters of `chars` at its end (`std.rstripChars`).
pub fn rstrip_chars(s: &str, chars: &str) -> (res: String)
    ensures
        res@ == rstrip_model(s@, chars@),
{
    let cs = chars_of(s);
    let set = chars_of(chars);
    let b = rstrip_index(cs.as_slice(), set.as_slice(), cs.len());
    proof {
        lemma_rstrip_bounds(cs@, set@, cs@.len() as int);
    }
    copy_range(cs.as_slice(), 0, b)
}

/// `s` without the characters of `chars` at either end (`std.stripChars`).
pub fn strip_chars(s: &str, chars: &str) -> (res: String)
    ensures
        res@ == strip_model(s@, chars@),
{
    let left = lstrip_chars(s, chars);
    rstrip_chars(left.as_str(), chars)
}

/// `s` without whitespace at either end (`std.trim`).
pub fn trim(s: &str) -> (res: String)
    ensures
        res@ == strip_model(s@, trim_set()),
{
    let set = vec!['\t', '\n', '\u{0C}', '\r', ' ', '\u{85}', '\u{A0}'];
    let ws = string_from_chars(set.as_slice());
    proof {
        assert(ws@ =~= trim_set());
    }
    strip_chars(s, ws.as_str())
}

proof fn lemma_lstrip_bounds(s: Seq<char>, set: Seq<char>, i: int)
    requires
        0 <= i <= s.len(),
    ensures
        i <= lstrip_from(s, set, i) <= s.len(),
    decreases s.len() - i,
{
    if 0 <= i < s.len() && set.contains(s[i]) {
        lemma_lstrip_bounds(s, set, i + 1);
    }
}

proof fn lemma_rstrip_bounds(s: Seq<char>, set: Seq<char>, j: int)
    requires
        0 <= j <= s.len(),
    ensures
        0 <= rstrip_to(s, set, j) <= j,
    decreases j,
{
    if 0 < j <= s.len() && set.contains(s[j - 1]) {
        lemma_rstrip_bounds(s, set, j - 1);
    }
}

/// Whether two strings are equal once ASCII letters are put in lower case
/// (`std.equalsIgnoreCase`).
pub fn equals_ignore_case(a: &str, b: &str) -> (res: bool)
    ensures
        res == eq_ignore_ascii_case(a@, b@),
{
    let x = chars_of(a);
    let y = chars_of(b);
    if x.len() != y.len() {
        return false;
    }
    let mut i: usize = 0;
    while i < x.len()
        invariant
            0 <= i <= x@.len(),
            x@.len() == y@.len(),
            x@ == a@,
            y@ == b@,
            forall|j: int| 0 <= j < i ==> ascii_lower(#[trigger] x@[j]) == ascii_lower(y@[j]),
        decreases x@.len() - i,
    {
        if to_lower(x[i]) != to_lower(y[i]) {
            return false;
        }
        i += 1;
    }
    true
}

fn to_lower(c: char) -> (res: char)
    ensures
        res == ascii_lower(c),
{
    if 'A' <= c && c <= 'Z' {
        (((c as u32) + 32) as u8) as char
    } else {
        c
    }
}

fn to_upper(c: char) -> (res: char)
    ensures
        res == ascii_upper(c),
{
    if 'a' <= c && c <= 'z' {
        (((c as u32) - 32) as u8) as char
    } else {
        c
    }
}

/// The string with its ASCII letters in upper case (`std.asciiUpper`).
pub fn ascii_upper_str(s: &str) -> (res: String)
    ensures
        res@ == s@.map_values(|c: char| ascii_upper(c)),
{
    let cs = chars_of(s);
    let mut out: Vec<char> = Vec::new();
    let mut i: usize = 0;
    while i < cs.len()
        invariant
            0 <= i <= cs@.len(),
            cs@ == s@,
            out@ == cs@.subrange(0, i as int).map_values(|c: char| ascii_upper(c)),
        decreases cs@.len() - i,
    {
        out.push(to_upper(cs[i]));
        i += 1;
        proof {
            assert(out@ =~= cs@.subrange(0, i as int).map_values(|c: char| ascii_upper(c)));
        }
    }
    proof {
        assert(cs@.subrange(0, i as int) =~= cs@);
    }
    string_from_chars(out.as_slice())
}

/// The string with its ASCII letters in lower case (`std.asciiLower`).
pub fn ascii_lower_str(s: &str) -> (res: String)
    ensures
        res@ == s@.map_values(|c: char| ascii_lower(c)),
{
    let cs = chars_of(s);
    let mut out: Vec<char> = Vec::new();
    let mut i: usize = 0;
    while i < cs.len()
        invariant
            0 <= i <= cs@.len(),
            cs@ == s@,
            out@ == cs@.subrange(0, i as int).map_values(|c: char| ascii_lower(c)),
        decreases cs@.len() - i,
    {
        out.push(to_lower(cs[i]));
        i += 1;
        proof {
            assert(out@ =~= cs@.subrange(0, i as int).map_values(|c: char| ascii_lower(c)));
        }
    }
    proof {
        assert(cs@.subrange(0, i as int) =~= cs@);
    }
    string_from_chars(out.as_slice())
}

/// The characters of a string, each as a string of its own (`std.stringChars`).
pub fn string_chars(s: &str) -> (res: Vec<String>)
    ensures
        res@.len() == s@.len(),
        forall|i: int| 0 <= i < s@.len() ==> (#[trigger] res@[i])@ == seq![s@[i]],
{
    let cs = chars_of(s);
    let mut out: Vec<String> = Vec::new();
    let mut i: usize = 0;
    while i < cs.len()
        invariant
            0 <= i <= cs@.len(),
            cs@ == s@,
            out@.len() == i,
            forall|j: int| 0 <= j < i ==> (#[trigger] out@[j])@ == seq![s@[j]],
        decreases cs@.len() - i,
    {
        let one = vec![cs[i]];
        let t = string_from_chars(one.as_slice());
        proof {
            assert(one@ =~= seq![s@[i as int]]);
        }
        out.push(t);
        i += 1;
    }
    out
}

/// A string between single quotes for a POSIX shell (`std.escapeStringBash`).
pub fn escape_string_bash(s: &str) -> (res: String)
    ensures
        res@ == seq!['\''] + bash_body(s@) + seq!['\''],
{
    let cs = chars_of(s);
    let mut out: Vec<char> = Vec::new();
    out.push('\'');
    let mut i: usize = 0;
    while i < cs.len()
        invariant
            0 <= i <= cs@.len(),
            cs@ == s@,
            out@ == seq!['\''] + bash_body(cs@.subrange(0, i as int)),
        decreases cs@.len() - i,
    {
        let c = cs[i];
        if c == '\'' {
            out.push('\'');
            out.push('"');
            out.push('\'');
            out.push('"');
            out.push('\'');
        } else {
            out.push(c);
        }
        proof {
            let sub = cs@.subrange(0, i + 1);
            assert(sub.drop_last() =~= cs@.subrange(0, i as int));
            assert(sub.last() == c);
            assert(out@ =~= seq!['\''] + bash_body(sub));
        }
        i += 1;
    }
    out.push('\'');
    proof {
        assert(cs@.subrange(0, i as int) =~= cs@);
    }
    string_from_chars(out.as_slice())
}

/// The string with each `$` doubled (`std.escapeStringDollars`).
pub fn escape_string_dollars(s: &str) -> (res: String)
    ensures
        res@ == dollars_body(s@),
{
    let cs = chars_of(s);
    let mut out: Vec<char> = Vec::new();
    let mut i: usize = 0;
    while i < cs.len()
        invariant
            0 <= i <= cs@.len(),
            cs@ == s@,
            out@ == dollars_body(cs@.subrange(0, i as int)),
        decreases cs@.len() - i,
    {
        let c = cs[i];
        if c == '$' {
            out.push('$');
            out.push('$');
        } else {
            out.push(c);
        }
        proof {
            let sub = cs@.subrange(0, i + 1);
            assert(sub.drop_last() =~= cs@.subrange(0, i as int));
            assert(sub.last() == c);
            assert(out@ =~= dollars_body(sub));
        }
        i += 1;
    }
    proof {
        assert(cs@.subrange(0, i as int) =~= cs@);
    }
    string_from_chars(out.as_slice())
}

/// The XML text of a string (`std.escapeStringXml`).
pub fn escape_string_xml(s: &str) -> (res: String)
    ensures
        res@ == xml_body(s@),
{
    let cs = chars_of(s);
    let mut out: Vec<char> = Vec::new();
    let mut i: usize = 0;
    while i < cs.len()
        invariant
            0 <= i <= cs@.len(),
            cs@ == s@,
            out@ == xml_body(cs@.subrange(0, i as int)),
        decreases cs@.len() - i,
    {
        let c = cs[i];
        let ghost before = out@;
        if c == '<' {
            push_str(&mut out, "&lt;");
        } else if c == '>' {
            push_str(&mut out, "&gt;");
        } else if c == '&' {
            push_str(&mut out, "&amp;");
        } else if c == '"' {
            push_str(&mut out, "&quot;");
        } else if c == '\'' {
            push_str(&mut out, "&apos;");
        } else {
            out.push(c);
        }
        proof {
            reveal_strlit("&lt;");
            reveal_strlit("&gt;");
            reveal_strlit("&amp;");
            reveal_strlit("&quot;");
            reveal_strlit("&apos;");
            let sub = cs@.subrange(0, i + 1);
            assert(sub.drop_last() =~= cs@.subrange(0, i as int));
            assert(sub.last() == c);
            assert(out@ =~= before + xml_escape_char(c));
        }
        i += 1;
    }
    proof {
        assert(cs@.subrange(0, i as int) =~= cs@);
    }
    string_from_chars(out.as_slice())
}

/// The code point of a string of one character (`std.codepoint`).
pub fn codepoint(s: &str) -> (res: Result<u32, EvalErrorKind>)
    ensures
        s@.len() == 1 ==> res == Ok::<u32, EvalErrorKind>(s@[0] as u32),
        s@.len() != 1 ==> (res matches Err(e) && is_other_error(e, "string is not single-character"@)),
{
    let cs = chars_of(s);
    if cs.len() == 1 {
        Ok(cs[0] as u32)
    } else {
        Err(other_error(String::from_str("string is not single-character")))
    }
}

/// The models of a sequence of strings.
pub open spec fn strings_view(v: Seq<String>) -> Seq<Seq<char>> {
    v.map_values(|x: String| x@)
}

/// The first match is a match, and none comes before it.
pub proof fn lemma_first_match(s: Seq<char>, pat: Seq<char>, from: int)
    requires
        0 <= from <= s.len(),
    ensures
        first_match(s, pat, from) == -1 || (from <= first_match(s, pat, from) && first_match(s, pat, from)
            + pat.len() <= s.len() && occurs_at(s, pat, first_match(s, pat, from))),
        forall|k: int|
            from <= k && (first_match(s, pat, from) == -1 || k < first_match(s, pat, from)) ==> !occurs_at(s, pat, k),
    decreases s.len() - from,
{
    if from + pat.len() > s.len() {
    } else if occurs_at(s, pat, from) {
    } else if from >= s.len() {
    } else {
        lemma_first_match(s, pat, from + 1);
    }
}

/// The last match is a match that ends by `to`.
pub proof fn lemma_last_match(s: Seq<char>, pat: Seq<char>, to: int)
    requires
        0 <= to <= s.len(),
    ensures
        last_match(s, pat, to) == -1 || (0 <= last_match(s, pat, to) && last_match(s, pat, to) + pat.len() <= to
            && occurs_at(s, pat, last_match(s, pat, to))),
    decreases to,
{
    if to < pat.len() {
    } else if occurs_at(s, pat, to - pat.len()) {
    } else if to <= 0 {
    } else {
        lemma_last_match(s, pat, to - 1);
    }
}

/// The pieces of `s` from `from` on between the occurrences of `sep`,
/// leftmost first, at most `k` pieces (the last holds the rest).
pub open spec fn splitn_from(s: Seq<char>, sep: Seq<char>, from: int, k: nat) -> Seq<Seq<char>>
    decreases k,
{
    let i = first_match(s, sep, from);
    if from < 0 || from > s.len() {
        seq![]
    } else if k <= 1 || i < 0 || sep.len() == 0 {
        seq![s.subrange(from, s.len() as int)]
    } else {
        seq![s.subrange(from, i)] + splitn_from(s, sep, i + sep.len(), (k - 1) as nat)
    }
}

/// The pieces of `s` from `from` on between all the occurrences of `sep`.
pub open spec fn split_from(s: Seq<char>, sep: Seq<char>, from: int) -> Seq<Seq<char>>
    decreases s.len() - from,
{
    let i = first_match(s, sep, from);
    if from < 0 || from > s.len() {
        seq![]
    } else if i < 0 || sep.len() == 0 {
        seq![s.subrange(from, s.len() as int)]
    } else {
        proof {
            lemma_first_match(s, sep, from);
        }
        seq![s.subrange(from, i)] + split_from(s, sep, i + sep.len())
    }
}

/// The pieces of `s` up to `to` between the occurrences of `sep`, the
/// rightmost taken first, at most `k` pieces (the first holds the rest).
pub open spec fn rsplitn_to(s: Seq<char>, sep: Seq<char>, to: int, k: nat) -> Seq<Seq<char>>
    decreases k,
{
    let j = last_match(s, sep, to);
    if to < 0 || to > s.len() {
        seq![]
    } else if k <= 1 || j < 0 || sep.len() == 0 {
        seq![s.subrange(0, to)]
    } else {
        rsplitn_to(s, sep, j, (k - 1) as nat) + seq![s.subrange(j + sep.len(), to)]
    }
}

/// `s` from `from` on with every occurrence of `pat` replaced by `rep`,
/// leftmost first.
pub open spec fn replace_from(s: Seq<char>, pat: Seq<char>, rep: Seq<char>, from: int) -> Seq<char>
    decreases s.len() - from,
{
    let i = first_match(s, pat, from);
    if from < 0 || from > s.len() {
        seq![]
    } else if i < 0 || pat.len() == 0 {
        s.subrange(from, s.len() as int)
    } else {
        proof {
            lemma_first_match(s, pat, from);
        }
        s.subrange(from, i) + rep + replace_from(s, pat, rep, i + pat.len())
    }
}

/// Each character of `s` followed by `rep`.
pub open spec fn interleave(s: Seq<char>, rep: Seq<char>) -> Seq<char>
    decreases s.len(),
{
    if s.len() == 0 {
        seq![]
    } else {
        interleave(s.drop_last(), rep) + seq![s.last()] + rep
    }
}

/// `s` with every occurrence of `pat` replaced by `rep`; an empty pattern
/// occurs before every character and at the end.
pub open spec fn replace_model(s: Seq<char>, pat: Seq<char>, rep: Seq<char>) -> Seq<char> {
    if pat.len() == 0 {
        rep + interleave(s, rep)
    } else {
        replace_from(s, pat, rep, 0)
    }
}

fn first_match_exec(s: &[char], pat: &[char], from: usize) -> (res: Option<usize>)
    requires
        from <= s@.len(),
        pat@.len() > 0,
    ensures
        match res {
            Some(i) => i as int == first_match(s@, pat@, from as int),
            None => first_match(s@, pat@, from as int) == -1,
        },
{
    let n = s.len();
    if pat.len() > n {
        return None;
    }
    let last = n - pat.len();
    if from > last {
        return None;
    }
    let mut i = from;
    while i <= last
        invariant
            from <= i,
            i <= last + 1,
            last == n - pat@.len(),
            n == s@.len(),
            pat@.len() > 0,
            first_match(s@, pat@, from as int) == first_match(s@, pat@, i as int),
        decreases last + 1 - i,
    {
        if occurs_at_exec(s, pat, i) {
            return Some(i);
        }
        i += 1;
    }
    None
}

fn last_match_exec(s: &[char], pat: &[char], to: usize) -> (res: Option<usize>)
    requires
        to <= s@.len(),
        pat@.len() > 0,
    ensures
        match res {
            Some(j) => j as int == last_match(s@, pat@, to as int),
            None => last_match(s@, pat@, to as int) == -1,
        },
{
    let m = pat.len();
    let mut t = to;
    while t >= m
        invariant
            t <= to <= s@.len(),
            m == pat@.len(),
            m > 0,
            last_match(s@, pat@, to as int) == last_match(s@, pat@, t as int),
        decreases t,
    {
        if occurs_at_exec(s, pat, t - m) {
            return Some(t - m);
        }
        t -= 1;
    }
    None
}

fn split_unlimited(cs: &[char], sep: &[char]) -> (res: Vec<String>)
    requires
        sep@.len() > 0,
    ensures
        strings_view(res@) == split_from(cs@, sep@, 0),
{
    let n = cs.len();
    let mut pieces: Vec<String> = Vec::new();
    let mut pos: usize = 0;
    proof {
        assert(strings_view(pieces@) =~= Seq::<Seq<char>>::empty());
        assert(Seq::<Seq<char>>::empty() + split_from(cs@, sep@, 0) =~= split_from(cs@, sep@, 0));
    }
    loop
        invariant
            0 <= pos <= cs@.len(),
            n == cs@.len(),
            sep@.len() > 0,
            strings_view(pieces@) + split_from(cs@, sep@, pos as int) == split_from(cs@, sep@, 0),
        decreases cs@.len() - pos,
    {
        let ghost before = pieces@;
        proof {
            lemma_first_match(cs@, sep@, pos as int);
        }
        match first_match_exec(cs, sep, pos) {
            None => {
                pieces.push(copy_range(cs, pos, cs.len()));
                proof {
                    assert(strings_view(pieces@) =~= strings_view(before) + split_from(cs@, sep@, pos as int));
                }
                return pieces;
            },
            Some(i) => {
                pieces.push(copy_range(cs, pos, i));
                proof {
                    let piece = seq![cs@.subrange(pos as int, i as int)];
                    assert(strings_view(pieces@) =~= strings_view(before) + piece);
                    assert(strings_view(before) + (piece + split_from(cs@, sep@, i + sep@.len())) =~= strings_view(
                        pieces@,
                    ) + split_from(cs@, sep@, i + sep@.len()));
                }
                pos = i + sep.len();
            },
        }
    }
}

fn split_at_most(cs: &[char], sep: &[char], k: usize) -> (res: Vec<String>)
    requires
        sep@.len() > 0,
        k >= 1,
    ensures
        strings_view(res@) == splitn_from(cs@, sep@, 0, k as nat),
{
    let n = cs.len();
    let mut pieces: Vec<String> = Vec::new();
    let mut pos: usize = 0;
    let mut left = k;
    proof {
        assert(strings_view(pieces@) =~= Seq::<Seq<char>>::empty());
        assert(Seq::<Seq<char>>::empty() + splitn_from(cs@, sep@, 0, k as nat) =~= splitn_from(cs@, sep@, 0, k as nat));
    }
    loop
        invariant
            0 <= pos <= cs@.len(),
            n == cs@.len(),
            left >= 1,
            sep@.len() > 0,
            strings_view(pieces@) + splitn_from(cs@, sep@, pos as int, left as nat) == splitn_from(cs@, sep@, 0, k as nat),
        decreases left,
    {
        let ghost before = pieces@;
        proof {
            lemma_first_match(cs@, sep@, pos as int);
        }
        let found = if left <= 1 {
            None
        } else {
            first_match_exec(cs, sep, pos)
        };
        match found {
            None => {
                pieces.push(copy_range(cs, pos, cs.len()));
                proof {
                    assert(strings_view(pieces@) =~= strings_view(before) + splitn_from(cs@, sep@, pos as int, left as nat));
                }
                return pieces;
            },
            Some(i) => {
                pieces.push(copy_range(cs, pos, i));
                proof {
                    let piece = seq![cs@.subrange(pos as int, i as int)];
                    let rest = splitn_from(cs@, sep@, i + sep@.len(), (left - 1) as nat);
                    assert(strings_view(pieces@) =~= strings_view(before) + piece);
                    assert(strings_view(before) + (piece + rest) =~= strings_view(pieces@) + rest);
                }
                pos = i + sep.len();
                left = left - 1;
            },
        }
    }
}

fn rsplit_at_most(cs: &[char], sep: &[char], k: usize) -> (res: Vec<String>)
    requires
        sep@.len() > 0,
        k >= 1,
    ensures
        strings_view(res@) == rsplitn_to(cs@, sep@, cs@.len() as int, k as nat),
{
    let mut pieces: Vec<String> = Vec::new();
    let mut to: usize = cs.len();
    let mut left = k;
    proof {
        assert(strings_view(pieces@) =~= Seq::<Seq<char>>::empty());
        let all = rsplitn_to(cs@, sep@, cs@.len() as int, k as nat);
        assert(all + Seq::<Seq<char>>::empty() =~= all);
    }
    loop
        invariant
            0 <= to <= cs@.len(),
            left >= 1,
            sep@.len() > 0,
            rsplitn_to(cs@, sep@, to as int, left as nat) + strings_view(pieces@) == rsplitn_to(
                cs@,
                sep@,
                cs@.len() as int,
                k as nat,
            ),
        decreases left,
    {
        let ghost after = pieces@;
        proof {
            lemma_last_match(cs@, sep@, to as int);
        }
        let found = if left <= 1 {
            None
        } else {
            last_match_exec(cs, sep, to)
        };
        match found {
            None => {
                pieces.insert(0, copy_range(cs, 0, to));
                proof {
                    assert(strings_view(pieces@) =~= rsplitn_to(cs@, sep@, to as int, left as nat) + strings_view(after));
                }
                return pieces;
            },
            Some(j) => {
                pieces.insert(0, copy_range(cs, j + sep.len(), to));
                proof {
                    let piece = seq![cs@.subrange(j + sep@.len(), to as int)];
                    let front = rsplitn_to(cs@, sep@, j as int, (left - 1) as nat);
                    assert(strings_view(pieces@) =~= piece + strings_view(after));
                    assert(front + piece + strings_view(after) =~= front + strings_view(pieces@));
                }
                to = j;
                left = left - 1;
            },
        }
    }
}

/// The message for an empty delimiter.
pub open spec fn empty_delimiter_message() -> Seq<char> {
    "split delimiter is empty"@
}

/// The pieces of `s` between the occurrences of `sep` (`std.split`).
pub fn split(s: &str, sep: &str) -> (res: Result<Vec<String>, EvalErrorKind>)
    ensures
        sep@.len() == 0 ==> (res matches Err(e) && is_other_error(e, empty_delimiter_message())),
        sep@.len() > 0 ==> (res matches Ok(v) && strings_view(v@) == split_from(s@, sep@, 0)),
{
    let cs = chars_of(s);
    let d = chars_of(sep);
    if d.len() == 0 {
        return Err(other_error(String::from_str("split delimiter is empty")));
    }
    Ok(split_unlimited(cs.as_slice(), d.as_slice()))
}

/// The pieces of `s` between the first `maxsplits` occurrences of `sep`,
/// all of them where `maxsplits` is `None` (`std.splitLimit`).
pub fn split_limit(s: &str, sep: &str, maxsplits: Option<usize>) -> (res: Result<Vec<String>, EvalErrorKind>)
    ensures
        sep@.len() == 0 ==> (res matches Err(e) && is_other_error(e, empty_delimiter_message())),
        sep@.len() > 0 ==> (res matches Ok(v) && strings_view(v@) == match maxsplits {
            Some(m) if m < usize::MAX => splitn_from(s@, sep@, 0, (m + 1) as nat),
            _ => split_from(s@, sep@, 0),
        }),
{
    let cs = chars_of(s);
    let d = chars_of(sep);
    if d.len() == 0 {
        return Err(other_error(String::from_str("split delimiter is empty")));
    }
    match maxsplits {
        Some(m) if m < usize::MAX => Ok(split_at_most(cs.as_slice(), d.as_slice(), m + 1)),
        _ => Ok(split_unlimited(cs.as_slice(), d.as_slice())),
    }
}

/// The pieces of `s` between the last `maxsplits` occurrences of `sep`,
/// all of them where `maxsplits` is `None` (`std.splitLimitR`).
pub fn split_limit_r(s: &str, sep: &str, maxsplits: Option<usize>) -> (res: Result<Vec<String>, EvalErrorKind>)
    ensures
        sep@.len() == 0 ==> (res matches Err(e) && is_other_error(e, empty_delimiter_message())),
        sep@.len() > 0 ==> (res matches Ok(v) && strings_view(v@) == match maxsplits {
            Some(m) if m < usize::MAX => rsplitn_to(s@, sep@, s@.len() as int, (m + 1) as nat),
            _ => split_from(s@, sep@, 0),
        }),
{
    let cs = chars_of(s);
    let d = chars_of(sep);
    if d.len() == 0 {
        return Err(other_error(String::from_str("split delimiter is empty")));
    }
    match maxsplits {
        Some(m) if m < usize::MAX => Ok(rsplit_at_most(cs.as_slice(), d.as_slice(), m + 1)),
        _ => Ok(split_unlimited(cs.as_slice(), d.as_slice())),
    }
}

/// `s` with every occurrence of `from` replaced by `to` (`std.strReplace`).
pub fn str_replace(s: &str, from: &str, to: &str) -> (res: String)
    ensures
        res@ == replace_model(s@, from@, to@),
{
    let cs = chars_of(s);
    let pat = chars_of(from);
    let rep = chars_of(to);
    let mut out: Vec<char> = Vec::new();
    if pat.len() == 0 {
        push_chars(&mut out, rep.as_slice());
        let mut i: usize = 0;
        while i < cs.len()
            invariant
                0 <= i <= cs@.len(),
                cs@ == s@,
                rep@ == to@,
                out@ == rep@ + interleave(cs@.subrange(0, i as int), rep@),
            decreases cs@.len() - i,
        {
            out.push(cs[i]);
            push_chars(&mut out, rep.as_slice());
            proof {
                let sub = cs@.subrange(0, i + 1);
                assert(sub.drop_last() =~= cs@.subrange(0, i as int));
                assert(out@ =~= rep@ + interleave(sub, rep@));
            }
            i += 1;
        }
        proof {
            assert(cs@.subrange(0, i as int) =~= cs@);
        }
        return string_from_chars(out.as_slice());
    }
    let n = cs.len();
    let mut pos: usize = 0;
    proof {
        assert(Seq::<char>::empty() + replace_from(cs@, pat@, rep@, 0) =~= replace_from(cs@, pat@, rep@, 0));
    }
    loop
        invariant
            0 <= pos <= cs@.len(),
            n == cs@.len(),
            pat@.len() > 0,
            cs@ == s@,
            pat@ == from@,
            rep@ == to@,
            out@ + replace_from(cs@, pat@, rep@, pos as int) == replace_from(cs@, pat@, rep@, 0),
        decreases cs@.len() - pos,
    {
        let ghost before = out@;
        proof {
            lemma_first_match(cs@, pat@, pos as int);
        }
        match first_match_exec(cs.as_slice(), pat.as_slice(), pos) {
            None => {
                let mut k = pos;
                while k < cs.len()
                    invariant
                        pos <= k <= cs@.len(),
                        out@ == before + cs@.subrange(pos as int, k as int),
                    decreases cs@.len() - k,
                {
                    out.push(cs[k]);
                    k += 1;
                    proof {
                        assert(out@ =~= before + cs@.subrange(pos as int, k as int));
                    }
                }
                proof {
                    assert(out@ == before + replace_from(cs@, pat@, rep@, pos as int));
                }
                return string_from_chars(out.as_slice());
            },
            Some(i) => {
                let mut k = pos;
                while k < i
                    invariant
                        pos <= k <= i <= cs@.len(),
                        out@ == before + cs@.subrange(pos as int, k as int),
                    decreases i - k,
                {
                    out.push(cs[k]);
                    k += 1;
                    proof {
                        assert(out@ =~= before + cs@.subrange(pos as int, k as int));
                    }
                }
                push_chars(&mut out, rep.as_slice());
                proof {
                    let rest = replace_from(cs@, pat@, rep@, i + pat@.len());
                    assert(before + (cs@.subrange(pos as int, i as int) + rep@ + rest) =~= out@ + rest);
                }
                pos = i + pat.len();
            },
        }
    }
}

/// The message for a string with no digits after its sign.
pub open spec fn no_digits_message(s: Seq<char>) -> Seq<char> {
    "integer without digits: "@ + debug_str_text(s)
}

/// The position of the first character at or after `i` that is not a digit,
/// or the length.
pub open spec fn first_non_digit(s: Seq<char>, i: int) -> int
    decreases s.len() - i,
{
    if i < 0 || i >= s.len() {
        s.len() as int
    } else if !('0' <= s[i] && s[i] <= '9') {
        i
    } else {
        first_non_digit(s, i + 1)
    }
}

/// What is wrong with a decimal integer, if anything: no digits after the
/// optional `-`, or the first character that is not a digit.
pub open spec fn int_syntax_error(s: Seq<char>) -> Option<Seq<char>> {
    let start = if s.len() > 0 && s[0] == '-' {
        1int
    } else {
        0int
    };
    if start >= s.len() {
        Some(no_digits_message(s))
    } else if first_non_digit(s, start) < s.len() {
        Some("invalid base 10: "@ + debug_char_text(s[first_non_digit(s, start)]))
    } else {
        None
    }
}

/// Checks that a string is an optional `-` followed by decimal digits, as
/// `std.parseInt` asks; the number itself is read as a float.
pub fn check_int_syntax(s: &str) -> (res: Result<(), EvalErrorKind>)
    ensures
        match int_syntax_error(s@) {
            None => res is Ok,
            Some(m) => res matches Err(e) && is_other_error(e, m),
        },
{
    let cs = chars_of(s);
    let start: usize = if cs.len() > 0 && cs[0] == '-' {
        1
    } else {
        0
    };
    if start >= cs.len() {
        let shown = debug_str(s);
        return Err(other_error(concat_str("integer without digits: ", shown.as_str())));
    }
    let mut i = start;
    while i < cs.len()
        invariant
            start <= i <= cs@.len(),
            cs@ == s@,
            start == (if s@.len() > 0 && s@[0] == '-' { 1int } else { 0int }),
            start < s@.len(),
            first_non_digit(cs@, start as int) == first_non_digit(cs@, i as int),
        decreases cs@.len() - i,
    {
        let c = cs[i];
        if !('0' <= c && c <= '9') {
            proof {
                assert(first_non_digit(cs@, i as int) == i);
                assert(first_non_digit(cs@, start as int) == i);
                assert(cs@[i as int] == c);
            }
            let shown = debug_char(c);
            return Err(other_error(concat_str("invalid base 10: ", shown.as_str())));
        }
        i += 1;
    }
    Ok(())
}

/// The string of one character with a given code point (`std.char`, once
/// the number is an integer that fits in 32 bits).
pub fn std_char(u: u32) -> (res: Result<String, EvalErrorKind>)
    ensures
        is_scalar(u) ==> (res matches Ok(t) && t@ == seq![u as char]),
        !is_scalar(u) ==> (res matches Err(e) && is_other_error(
            e,
            int_digits(u as nat, 10, seq![]) + " is not a valid unicode codepoint"@,
        )),
{
    match char_from_u32(u) {
        Some(c) => {
            let one = vec![c];
            proof {
                assert(one@ =~= seq![u as char]);
            }
            Ok(string_from_chars(one.as_slice()))
        },
        None => {
            let digits = decimal_text(u as u128);
            Err(other_error(concat_str(digits.as_str(), " is not a valid unicode codepoint")))
        },
    }
}


/// The pieces joined, with `sep` between each two (as `std.join` joins
/// strings and arrays).
pub open spec fn join_with<A>(parts: Seq<Seq<A>>, sep: Seq<A>) -> Seq<A>
    decreases parts.len(),
{
    if parts.len() == 0 {
        seq![]
    } else if parts.len() == 1 {
        parts[0]
    } else {
        parts[0] + sep + join_with(parts.drop_first(), sep)
    }
}

proof fn lemma_join_split_from(s: Seq<char>, sep: Seq<char>, rep: Seq<char>, from: int)
    requires
        sep.len() > 0,
        0 <= from <= s.len(),
    ensures
        split_from(s, sep, from).len() >= 1,
        join_with(split_from(s, sep, from), rep) == replace_from(s, sep, rep, from),
    decreases s.len() - from,
{
    lemma_first_match(s, sep, from);
    let i = first_match(s, sep, from);
    if i >= 0 {
        lemma_join_split_from(s, sep, rep, i + sep.len());
        let rest = split_from(s, sep, i + sep.len());
        let parts = seq![s.subrange(from, i)] + rest;
        assert(parts.drop_first() =~= rest);
        assert(parts[0] == s.subrange(from, i));
    }
}

proof fn lemma_replace_by_itself(s: Seq<char>, sep: Seq<char>, from: int)
    requires
        sep.len() > 0,
        0 <= from <= s.len(),
    ensures
        replace_from(s, sep, sep, from) == s.subrange(from, s.len() as int),
    decreases s.len() - from,
{
    lemma_first_match(s, sep, from);
    let i = first_match(s, sep, from);
    if i >= 0 {
        lemma_replace_by_itself(s, sep, i + sep.len());
        assert(s.subrange(i, i + sep.len()) == sep);
        assert(s.subrange(from, i) + sep + s.subrange(i + sep.len(), s.len() as int) =~= s.subrange(
            from,
            s.len() as int,
        ));
    }
}

/// `std.strReplace(s, pat, rep)` is `std.join(rep, std.split(s, pat))` for
/// every non-empty pattern.
pub proof fn law_replace_is_split_then_join(s: Seq<char>, pat: Seq<char>, rep: Seq<char>)
    requires
        pat.len() > 0,
    ensures
        replace_model(s, pat, rep) == join_with(split_from(s, pat, 0), rep),
{
    lemma_join_split_from(s, pat, rep, 0);
}

/// Joining the pieces of `std.split(s, sep)` with `sep` gives `s` back.
pub proof fn law_split_then_join(s: Seq<char>, sep: Seq<char>)
    requires
        sep.len() > 0,
    ensures
        join_with(split_from(s, sep, 0), sep) == s,
{
    lemma_join_split_from(s, sep, sep, 0);
    lemma_replace_by_itself(s, sep, 0);
    assert(s.subrange(0, s.len() as int) =~= s);
}


/// `std.member` on a string: whether `needle` occurs in `s`.
pub fn member_string(s: &str, needle: &str) -> (res: bool)
    ensures
        res == exists|i: int| occurs_at(s@, needle@, i),
{
    let cs = chars_of(s);
    let pat = chars_of(needle);
    if pat.len() == 0 {
        proof {
            assert(s@.subrange(0, 0) =~= needle@);
            assert(occurs_at(s@, needle@, 0));
        }
        return true;
    }
    proof {
        lemma_first_match(s@, needle@, 0);
    }
    match first_match_exec(cs.as_slice(), pat.as_slice(), 0) {
        Some(i) => {
            proof {
                assert(occurs_at(s@, needle@, i as int));
            }
            true
        },
        None => {
            proof {
                assert forall|i: int| !occurs_at(s@, needle@, i) by {
                    if 0 <= i {
                        assert(!occurs_at(s@, needle@, i));
                    }
                }
            }
            false
        },
    }
}

} // verus!
