//! The `%` format strings of `std.format`: parsing them into parts, and
//! laying out the digits of a converted number.

use vstd::prelude::*;
use crate::text::{chars_of, string_from_chars, push_str, push_chars, debug_char, debug_char_text, concat_str};
use crate::error::{EvalErrorKind, is_other_error, other_error};

verus! {

/// How a code converts its value.
#[derive(Copy, Clone, Debug, PartialEq, Eq, Structural)]
pub enum ConvType {
    Decimal,
    Octal,
    HexLower,
    HexUpper,
    ExpLower,
    ExpUpper,
    FloatLower,
    FloatUpper,
    FloatGLower,
    FloatGUpper,
    Char,
    String,
    Percent,
}

/// A length modifier, which is read and then ignored.
#[derive(Copy, Clone, Debug, PartialEq, Eq, Structural)]
pub enum LenMod {
    H,
    LowerL,
    UpperL,
}

/// A field width or precision: written in the code, or taken from the
/// values (`*`).
#[derive(Copy, Clone, Debug, PartialEq, Eq, Structural)]
pub enum FieldWidth {
    Inline(u32),
    External,
}

/// The flags of a code.
#[derive(Copy, Clone, Debug, PartialEq, Eq, Structural)]
pub struct CFlags {
    pub alt: bool,
    pub zero: bool,
    pub left: bool,
    pub blank: bool,
    pub plus: bool,
}

/// One `%` code.
#[derive(Clone, Debug)]
pub struct FormatCode {
    pub mkey: Option<String>,
    pub cflags: CFlags,
    pub fw: Option<FieldWidth>,
    pub prec: Option<FieldWidth>,
    pub len_mod: Option<LenMod>,
    pub ctype: ConvType,
}

/// A piece of a format string: literal text or a code.
#[derive(Clone, Debug)]
pub enum FormatPart {
    Literal(String),
    Code(FormatCode),
}

/// The model of a [`FormatCode`].
pub struct FormatCodeModel {
    pub mkey: Option<Seq<char>>,
    pub cflags: CFlags,
    pub fw: Option<FieldWidth>,
    pub prec: Option<FieldWidth>,
    pub len_mod: Option<LenMod>,
    pub ctype: ConvType,
}

/// The model of a [`FormatPart`].
pub enum FormatPartModel {
    Literal(Seq<char>),
    Code(FormatCodeModel),
}

impl View for FormatCode {
    type V = FormatCodeModel;

    open spec fn view(&self) -> FormatCodeModel {
        FormatCodeModel {
            mkey: match self.mkey {
                Some(k) => Some(k@),
                None => None,
            },
            cflags: self.cflags,
            fw: self.fw,
            prec: self.prec,
            len_mod: self.len_mod,
            ctype: self.ctype,
        }
    }
}

impl View for FormatPart {
    type V = FormatPartModel;

    open spec fn view(&self) -> FormatPartModel {
        match self {
            FormatPart::Literal(s) => FormatPartModel::Literal(s@),
            FormatPart::Code(c) => FormatPartModel::Code(c@),
        }
    }
}

/// The models of a sequence of parts.
pub open spec fn parts_view(parts: Seq<FormatPart>) -> Seq<FormatPartModel> {
    parts.map_values(|p: FormatPart| p@)
}

impl FormatCode {
    /// Whether the conversion reads the precision.
    pub fn uses_prec(&self) -> (res: bool)
        ensures
            res == !(self.ctype == ConvType::Char || self.ctype == ConvType::String || self.ctype
                == ConvType::Percent),
    {
        match self.ctype {
            ConvType::Decimal | ConvType::Octal | ConvType::HexLower | ConvType::HexUpper | ConvType::ExpLower
            | ConvType::ExpUpper | ConvType::FloatLower | ConvType::FloatUpper | ConvType::FloatGLower
            | ConvType::FloatGUpper => true,
            ConvType::Char | ConvType::String | ConvType::Percent => false,
        }
    }
}

/// The message of a code cut short.
pub open spec fn truncated_message() -> Seq<char> {
    "truncated format code"@
}

/// The first position at or after `from` that holds `c`, or the length.
pub open spec fn find_char(s: Seq<char>, from: int, c: char) -> int
    decreases s.len() - from,
{
    if from >= s.len() || from < 0 {
        s.len() as int
    } else if s[from] == c {
        from
    } else {
        find_char(s, from + 1, c)
    }
}

/// Whether `c` is a flag character.
pub open spec fn is_flag(c: char) -> bool {
    c == '#' || c == '0' || c == '-' || c == ' ' || c == '+'
}

/// The end of the run of flags that starts at `p`.
pub open spec fn flags_end(s: Seq<char>, p: int) -> int
    decreases s.len() - p,
{
    if 0 <= p < s.len() && is_flag(s[p]) {
        flags_end(s, p + 1)
    } else {
        p
    }
}

/// Whether `c` occurs in `s` between `p` and `q`.
pub open spec fn occurs(s: Seq<char>, p: int, q: int, c: char) -> bool {
    exists|k: int| p <= k < q && s[k] == c
}

/// The flags in `s` between `p` and `q`.
pub open spec fn flags_between(s: Seq<char>, p: int, q: int) -> CFlags {
    CFlags {
        alt: occurs(s, p, q, '#'),
        zero: occurs(s, p, q, '0'),
        left: occurs(s, p, q, '-'),
        blank: occurs(s, p, q, ' '),
        plus: occurs(s, p, q, '+'),
    }
}

/// Whether `c` is an ASCII digit.
pub open spec fn is_ascii_digit(c: char) -> bool {
    '0' <= c && c <= '9'
}

/// The end of the run of digits that starts at `p`.
pub open spec fn decimal_end(s: Seq<char>, p: int) -> int
    decreases s.len() - p,
{
    if 0 <= p < s.len() && is_ascii_digit(s[p]) {
        decimal_end(s, p + 1)
    } else {
        p
    }
}

/// The number that the digits between `p` and `q` write.
pub open spec fn decimal_value(s: Seq<char>, p: int, q: int) -> nat
    decreases q - p,
{
    if q <= p {
        0
    } else {
        decimal_value(s, p, q - 1) * 10 + ((s[q - 1] as nat) - ('0' as nat)) as nat
    }
}

/// The mapping key of a code: `(key)`, if the code starts with one.
pub open spec fn mkey_stage(s: Seq<char>, p: int) -> Result<(Option<Seq<char>>, int), Seq<char>> {
    if 0 <= p < s.len() && s[p] == '(' {
        let j = find_char(s, p + 1, ')');
        if j >= s.len() {
            Err(truncated_message())
        } else {
            Ok((Some(s.subrange(p + 1, j)), j + 1))
        }
    } else {
        Ok((None, p))
    }
}

/// A run of digits that must fit in 32 bits, or the error `message`.
pub open spec fn number_stage(s: Seq<char>, p: int, e: int, message: Seq<char>) -> Result<
    (Option<FieldWidth>, int),
    Seq<char>,
> {
    if decimal_value(s, p, e) > u32::MAX {
        Err(message)
    } else {
        Ok((Some(FieldWidth::Inline(decimal_value(s, p, e) as u32)), e))
    }
}

/// The field width of a code.
pub open spec fn width_stage(s: Seq<char>, p: int) -> Result<(Option<FieldWidth>, int), Seq<char>> {
    if 0 <= p < s.len() && s[p] == '*' {
        Ok((Some(FieldWidth::External), p + 1))
    } else {
        let e = decimal_end(s, p);
        if e == p {
            Ok((None, p))
        } else {
            number_stage(s, p, e, "format field width is too large"@)
        }
    }
}

/// The precision of a code.
pub open spec fn prec_stage(s: Seq<char>, p: int) -> Result<(Option<FieldWidth>, int), Seq<char>> {
    if 0 <= p < s.len() && s[p] == '.' {
        let r = p + 1;
        if r < s.len() && s[r] == '*' {
            Ok((Some(FieldWidth::External), r + 1))
        } else {
            let e = decimal_end(s, r);
            if e == r {
                if r >= s.len() {
                    Err(truncated_message())
                } else {
                    Err("missing format precision digits"@)
                }
            } else {
                number_stage(s, r, e, "format precision is too large"@)
            }
        }
    } else {
        Ok((None, p))
    }
}

/// The length modifier of a code.
pub open spec fn len_mod_stage(s: Seq<char>, p: int) -> (Option<LenMod>, int) {
    if 0 <= p < s.len() && s[p] == 'h' {
        (Some(LenMod::H), p + 1)
    } else if 0 <= p < s.len() && s[p] == 'l' {
        (Some(LenMod::LowerL), p + 1)
    } else if 0 <= p < s.len() && s[p] == 'L' {
        (Some(LenMod::UpperL), p + 1)
    } else {
        (None, p)
    }
}

/// The conversion that a character names, if any.
pub open spec fn conv_of(c: char) -> Option<ConvType> {
    if c == 'd' || c == 'i' || c == 'u' {
        Some(ConvType::Decimal)
    } else if c == 'o' {
        Some(ConvType::Octal)
    } else if c == 'x' {
        Some(ConvType::HexLower)
    } else if c == 'X' {
        Some(ConvType::HexUpper)
    } else if c == 'e' {
        Some(ConvType::ExpLower)
    } else if c == 'E' {
        Some(ConvType::ExpUpper)
    } else if c == 'f' {
        Some(ConvType::FloatLower)
    } else if c == 'F' {
        Some(ConvType::FloatUpper)
    } else if c == 'g' {
        Some(ConvType::FloatGLower)
    } else if c == 'G' {
        Some(ConvType::FloatGUpper)
    } else if c == 'c' {
        Some(ConvType::Char)
    } else if c == 's' {
        Some(ConvType::String)
    } else if c == '%' {
        Some(ConvType::Percent)
    } else {
        None
    }
}

/// The conversion of a code.
pub open spec fn conv_stage(s: Seq<char>, p: int) -> Result<(ConvType, int), Seq<char>> {
    if p < 0 || p >= s.len() {
        Err(truncated_message())
    } else {
        match conv_of(s[p]) {
            Some(t) => Ok((t, p + 1)),
            None => Err("invalid format conversion code "@ + debug_char_text(s[p])),
        }
    }
}

/// The code that starts at `p` (just after its `%`), and where it ends; or
/// the message of what is wrong with it.
pub open spec fn parse_code(s: Seq<char>, p: int) -> Result<(FormatCodeModel, int), Seq<char>> {
    match mkey_stage(s, p) {
        Err(m) => Err(m),
        Ok((mkey, p1)) => {
            let q = flags_end(s, p1);
            let cflags = flags_between(s, p1, q);
            match width_stage(s, q) {
                Err(m) => Err(m),
                Ok((fw, r)) => match prec_stage(s, r) {
                    Err(m) => Err(m),
                    Ok((prec, t)) => {
                        let (len_mod, u) = len_mod_stage(s, t);
                        match conv_stage(s, u) {
                            Err(m) => Err(m),
                            Ok((ctype, end)) => Ok(
                                (FormatCodeModel { mkey, cflags, fw, prec, len_mod, ctype }, end),
                            ),
                        }
                    },
                },
            }
        },
    }
}

/// The parts of the format string from `pos` on.
pub open spec fn parse_parts(s: Seq<char>, pos: int) -> Result<Seq<FormatPartModel>, Seq<char>>
    decreases s.len() - pos,
{
    if pos < 0 || pos >= s.len() {
        Ok(seq![])
    } else {
        let i = find_char(s, pos, '%');
        if i >= s.len() {
            Ok(seq![FormatPartModel::Literal(s.subrange(pos, s.len() as int))])
        } else {
            let lit = if i > pos {
                seq![FormatPartModel::Literal(s.subrange(pos, i))]
            } else {
                seq![]
            };
            match parse_code(s, i + 1) {
                Err(m) => Err(m),
                Ok((code, q)) => {
                    proof {
                        lemma_find_char(s, pos, '%');
                        lemma_parse_code_advances(s, i + 1);
                    }
                    match parse_parts(s, q) {
                        Ok(rest) => Ok(lit + seq![FormatPartModel::Code(code)] + rest),
                        Err(m) => Err(m),
                    }
                },
            }
        }
    }
}

/// The parts of a whole format string.
pub open spec fn parse_format_model(s: Seq<char>) -> Result<Seq<FormatPartModel>, Seq<char>> {
    parse_parts(s, 0)
}

/// Where the search for a character stops.
pub proof fn lemma_find_char(s: Seq<char>, from: int, c: char)
    requires
        0 <= from <= s.len(),
    ensures
        from <= find_char(s, from, c) <= s.len(),
        find_char(s, from, c) < s.len() ==> s[find_char(s, from, c)] == c,
        forall|k: int| from <= k < find_char(s, from, c) ==> s[k] != c,
    decreases s.len() - from,
{
    if from < s.len() && s[from] != c {
        lemma_find_char(s, from + 1, c);
    }
}

/// The flags of a code end at or after where they begin.
pub proof fn lemma_flags_end(s: Seq<char>, p: int)
    requires
        0 <= p <= s.len(),
    ensures
        p <= flags_end(s, p) <= s.len(),
        forall|k: int| p <= k < flags_end(s, p) ==> is_flag(s[k]),
        flags_end(s, p) < s.len() ==> !is_flag(s[flags_end(s, p)]),
    decreases s.len() - p,
{
    if p < s.len() && is_flag(s[p]) {
        lemma_flags_end(s, p + 1);
    }
}

/// A run of digits ends at or after where it begins.
pub proof fn lemma_decimal_end(s: Seq<char>, p: int)
    requires
        0 <= p <= s.len(),
    ensures
        p <= decimal_end(s, p) <= s.len(),
        forall|k: int| p <= k < decimal_end(s, p) ==> is_ascii_digit(s[k]),
        decimal_end(s, p) < s.len() ==> !is_ascii_digit(s[decimal_end(s, p)]),
    decreases s.len() - p,
{
    if p < s.len() && is_ascii_digit(s[p]) {
        lemma_decimal_end(s, p + 1);
    }
}

/// Reading a code moves forward.
pub proof fn lemma_parse_code_advances(s: Seq<char>, p: int)
    requires
        0 <= p <= s.len(),
    ensures
        parse_code(s, p) matches Ok((_, q)) ==> p < q <= s.len(),
{
    if 0 <= p < s.len() && s[p] == '(' {
        lemma_find_char(s, p + 1, ')');
    }
    if let Ok((_, p1)) = mkey_stage(s, p) {
        lemma_flags_end(s, p1);
        let q = flags_end(s, p1);
        lemma_decimal_end(s, q);
        if let Ok((_, r)) = width_stage(s, q) {
            if 0 <= r < s.len() && s[r] == '.' {
                lemma_decimal_end(s, r + 1);
            }
        }
    }
}

proof fn lemma_decimal_step(s: Seq<char>, p: int, q: int)
    requires
        p <= q,
    ensures
        decimal_value(s, p, q + 1) == decimal_value(s, p, q) * 10 + ((s[q] as nat) - ('0' as nat)) as nat,
{
}

proof fn lemma_decimal_grows(s: Seq<char>, p: int, q: int)
    requires
        p <= q,
        forall|k: int| p <= k < q + 1 ==> is_ascii_digit(s[k]),
    ensures
        decimal_value(s, p, q + 1) >= decimal_value(s, p, q),
{
    lemma_decimal_step(s, p, q);
}

/// The model of an optional string.
pub open spec fn opt_view(k: Option<String>) -> Option<Seq<char>> {
    match k {
        Some(k) => Some(k@),
        None => None,
    }
}

fn find_char_at(s: &[char], from: usize, c: char) -> (res: usize)
    requires
        from <= s@.len(),
    ensures
        res as int == find_char(s@, from as int, c),
{
    let mut i = from;
    while i < s.len() && s[i] != c
        invariant
            from <= i <= s@.len(),
            find_char(s@, from as int, c) == find_char(s@, i as int, c),
        decreases s@.len() - i,
    {
        i += 1;
    }
    i
}

/// The characters of `s` between `a` and `b`, as a string.
fn substring(s: &[char], a: usize, b: usize) -> (res: String)
    requires
        a <= b <= s@.len(),
    ensures
        res@ == s@.subrange(a as int, b as int),
{
    let mut out: Vec<char> = Vec::new();
    let mut i = a;
    while i < b
        invariant
            a <= i <= b <= s@.len(),
            out@ == s@.subrange(a as int, i as int),
        decreases b - i,
    {
        out.push(s[i]);
        i += 1;
        proof {
            assert(out@ =~= s@.subrange(a as int, i as int));
        }
    }
    string_from_chars(out.as_slice())
}

fn parse_mkey(s: &[char], p: usize) -> (res: Result<(Option<String>, usize), EvalErrorKind>)
    requires
        p <= s@.len(),
    ensures
        match mkey_stage(s@, p as int) {
            Ok((k, q)) => res matches Ok((k2, q2)) && opt_view(k2) == k && q2 as int == q,
            Err(m) => res matches Err(e) && is_other_error(e, m),
        },
{
    if p < s.len() && s[p] == '(' {
        let j = find_char_at(s, p + 1, ')');
        proof {
            lemma_find_char(s@, p + 1, ')');
        }
        if j >= s.len() {
            return Err(other_error(String::from_str("truncated format code")));
        }
        Ok((Some(substring(s, p + 1, j)), j + 1))
    } else {
        Ok((None, p))
    }
}

fn flags_end_at(s: &[char], p: usize) -> (res: usize)
    requires
        p <= s@.len(),
    ensures
        res as int == flags_end(s@, p as int),
{
    let mut i = p;
    while i < s.len() && (s[i] == '#' || s[i] == '0' || s[i] == '-' || s[i] == ' ' || s[i] == '+')
        invariant
            p <= i <= s@.len(),
            flags_end(s@, p as int) == flags_end(s@, i as int),
        decreases s@.len() - i,
    {
        i += 1;
    }
    i
}

fn flags_of(s: &[char], p: usize, q: usize) -> (res: CFlags)
    requires
        p <= q <= s@.len(),
    ensures
        res == flags_between(s@, p as int, q as int),
{
    let mut alt = false;
    let mut zero = false;
    let mut left = false;
    let mut blank = false;
    let mut plus = false;
    let mut i = p;
    while i < q
        invariant
            p <= i <= q <= s@.len(),
            alt == occurs(s@, p as int, i as int, '#'),
            zero == occurs(s@, p as int, i as int, '0'),
            left == occurs(s@, p as int, i as int, '-'),
            blank == occurs(s@, p as int, i as int, ' '),
            plus == occurs(s@, p as int, i as int, '+'),
        decreases q - i,
    {
        let c = s[i];
        proof {
            assert forall|d: char| occurs(s@, p as int, i + 1, d) == (occurs(s@, p as int, i as int, d) || c == d) by {
                if occurs(s@, p as int, i + 1, d) {
                    let k = choose|k: int| p <= k < i + 1 && s@[k] == d;
                    if k < i {
                        assert(occurs(s@, p as int, i as int, d));
                    }
                }
                if occurs(s@, p as int, i as int, d) {
                    let k = choose|k: int| p <= k < i && s@[k] == d;
                    assert(p <= k < i + 1 && s@[k] == d);
                }
                if c == d {
                    assert(p <= i < i + 1 && s@[i as int] == d);
                }
            }
        }
        if c == '#' {
            alt = true;
        }
        if c == '0' {
            zero = true;
        }
        if c == '-' {
            left = true;
        }
        if c == ' ' {
            blank = true;
        }
        if c == '+' {
            plus = true;
        }
        i += 1;
    }
    CFlags { alt, zero, left, blank, plus }
}

fn decimal_end_at(s: &[char], p: usize) -> (res: usize)
    requires
        p <= s@.len(),
    ensures
        res as int == decimal_end(s@, p as int),
{
    let mut i = p;
    while i < s.len() && '0' <= s[i] && s[i] <= '9'
        invariant
            p <= i <= s@.len(),
            decimal_end(s@, p as int) == decimal_end(s@, i as int),
        decreases s@.len() - i,
    {
        i += 1;
    }
    i
}

/// The run of digits between `p` and `e`, which must fit in 32 bits.
fn parse_number(s: &[char], p: usize, e: usize, message: &str) -> (res: Result<(Option<FieldWidth>, usize), EvalErrorKind>)
    requires
        p < e <= s@.len(),
        forall|k: int| p <= k < e ==> is_ascii_digit(s@[k]),
    ensures
        match number_stage(s@, p as int, e as int, message@) {
            Ok((w, q)) => res matches Ok((w2, q2)) && w2 == w && q2 as int == q,
            Err(m) => res matches Err(err) && is_other_error(err, m),
        },
{
    let mut acc: u64 = 0;
    let mut too_big = false;
    let mut i = p;
    while i < e
        invariant
            p <= i <= e <= s@.len(),
            forall|k: int| p <= k < e ==> is_ascii_digit(s@[k]),
            too_big == (decimal_value(s@, p as int, i as int) > u32::MAX),
            !too_big ==> acc == decimal_value(s@, p as int, i as int),
        decreases e - i,
    {
        proof {
            lemma_decimal_grows(s@, p as int, i as int);
        }
        if !too_big {
            let d = (s[i] as u32) - ('0' as u32);
            let next = acc * 10 + (d as u64);
            if next > 0xFFFF_FFFF {
                too_big = true;
            } else {
                acc = next;
            }
        }
        i += 1;
    }
    if too_big {
        Err(other_error(String::from_str(message)))
    } else {
        Ok((Some(FieldWidth::Inline(acc as u32)), e))
    }
}

fn parse_width(s: &[char], p: usize) -> (res: Result<(Option<FieldWidth>, usize), EvalErrorKind>)
    requires
        p <= s@.len(),
    ensures
        match width_stage(s@, p as int) {
            Ok((w, q)) => res matches Ok((w2, q2)) && w2 == w && q2 as int == q,
            Err(m) => res matches Err(err) && is_other_error(err, m),
        },
{
    if p < s.len() && s[p] == '*' {
        return Ok((Some(FieldWidth::External), p + 1));
    }
    let e = decimal_end_at(s, p);
    proof {
        lemma_decimal_end(s@, p as int);
    }
    if e == p {
        Ok((None, p))
    } else {
        parse_number(s, p, e, "format field width is too large")
    }
}

fn parse_prec(s: &[char], p: usize) -> (res: Result<(Option<FieldWidth>, usize), EvalErrorKind>)
    requires
        p <= s@.len(),
    ensures
        match prec_stage(s@, p as int) {
            Ok((w, q)) => res matches Ok((w2, q2)) && w2 == w && q2 as int == q,
            Err(m) => res matches Err(err) && is_other_error(err, m),
        },
{
    if p < s.len() && s[p] == '.' {
        let r = p + 1;
        if r < s.len() && s[r] == '*' {
            return Ok((Some(FieldWidth::External), r + 1));
        }
        let e = decimal_end_at(s, r);
        proof {
            lemma_decimal_end(s@, r as int);
        }
        if e == r {
            if r >= s.len() {
                Err(other_error(String::from_str("truncated format code")))
            } else {
                Err(other_error(String::from_str("missing format precision digits")))
            }
        } else {
            parse_number(s, r, e, "format precision is too large")
        }
    } else {
        Ok((None, p))
    }
}

fn parse_len_mod(s: &[char], p: usize) -> (res: (Option<LenMod>, usize))
    requires
        p <= s@.len(),
    ensures
        (res.0, res.1 as int) == len_mod_stage(s@, p as int),
{
    if p < s.len() && s[p] == 'h' {
        (Some(LenMod::H), p + 1)
    } else if p < s.len() && s[p] == 'l' {
        (Some(LenMod::LowerL), p + 1)
    } else if p < s.len() && s[p] == 'L' {
        (Some(LenMod::UpperL), p + 1)
    } else {
        (None, p)
    }
}

fn conv_of_char(c: char) -> (res: Option<ConvType>)
    ensures
        res == conv_of(c),
{
    if c == 'd' || c == 'i' || c == 'u' {
        Some(ConvType::Decimal)
    } else if c == 'o' {
        Some(ConvType::Octal)
    } else if c == 'x' {
        Some(ConvType::HexLower)
    } else if c == 'X' {
        Some(ConvType::HexUpper)
    } else if c == 'e' {
        Some(ConvType::ExpLower)
    } else if c == 'E' {
        Some(ConvType::ExpUpper)
    } else if c == 'f' {
        Some(ConvType::FloatLower)
    } else if c == 'F' {
        Some(ConvType::FloatUpper)
    } else if c == 'g' {
        Some(ConvType::FloatGLower)
    } else if c == 'G' {
        Some(ConvType::FloatGUpper)
    } else if c == 'c' {
        Some(ConvType::Char)
    } else if c == 's' {
        Some(ConvType::String)
    } else if c == '%' {
        Some(ConvType::Percent)
    } else {
        None
    }
}

fn parse_conv(s: &[char], p: usize) -> (res: Result<(ConvType, usize), EvalErrorKind>)
    requires
        p <= s@.len(),
    ensures
        match conv_stage(s@, p as int) {
            Ok((t, q)) => res matches Ok((t2, q2)) && t2 == t && q2 as int == q,
            Err(m) => res matches Err(err) && is_other_error(err, m),
        },
{
    if p >= s.len() {
        return Err(other_error(String::from_str("truncated format code")));
    }
    match conv_of_char(s[p]) {
        Some(t) => Ok((t, p + 1)),
        None => {
            let shown = debug_char(s[p]);
            Err(other_error(concat_str("invalid format conversion code ", shown.as_str())))
        },
    }
}

/// Parses the code that starts at `p`, just after its `%`.
fn parse_code_at(s: &[char], p: usize) -> (res: Result<(FormatCode, usize), EvalErrorKind>)
    requires
        p <= s@.len(),
    ensures
        match parse_code(s@, p as int) {
            Ok((c, q)) => res matches Ok((c2, q2)) && c2@ == c && q2 as int == q,
            Err(m) => res matches Err(err) && is_other_error(err, m),
        },
{
    proof {
        if 0 <= p < s@.len() && s@[p as int] == '(' {
            lemma_find_char(s@, p + 1, ')');
        }
    }
    let (mkey, p1) = match parse_mkey(s, p) {
        Ok(x) => x,
        Err(e) => {
            return Err(e);
        },
    };
    let q = flags_end_at(s, p1);
    proof {
        lemma_flags_end(s@, p1 as int);
    }
    let cflags = flags_of(s, p1, q);
    let (fw, r) = match parse_width(s, q) {
        Ok(x) => x,
        Err(e) => {
            return Err(e);
        },
    };
    proof {
        lemma_decimal_end(s@, q as int);
    }
    let (prec, t) = match parse_prec(s, r) {
        Ok(x) => x,
        Err(e) => {
            return Err(e);
        },
    };
    proof {
        if 0 <= r < s@.len() && s@[r as int] == '.' {
            lemma_decimal_end(s@, r + 1);
        }
    }
    let (len_mod, u) = parse_len_mod(s, t);
    let (ctype, end) = match parse_conv(s, u) {
        Ok(x) => x,
        Err(e) => {
            return Err(e);
        },
    };
    Ok((FormatCode { mkey, cflags, fw, prec, len_mod, ctype }, end))
}

/// What the parts already taken and the rest of the string make together.
pub open spec fn prepend(done: Seq<FormatPartModel>, rest: Result<Seq<FormatPartModel>, Seq<char>>) -> Result<
    Seq<FormatPartModel>,
    Seq<char>,
> {
    match rest {
        Ok(r) => Ok(done + r),
        Err(m) => Err(m),
    }
}

/// Splits a format string into literal text and `%` codes.
pub fn parse_format_codes(fmt: &str) -> (res: Result<Vec<FormatPart>, EvalErrorKind>)
    ensures
        match parse_format_model(fmt@) {
            Ok(ps) => res matches Ok(v) && parts_view(v@) == ps,
            Err(m) => res matches Err(e) && is_other_error(e, m),
        },
{
    let cs = chars_of(fmt);
    let s = cs.as_slice();
    let mut parts: Vec<FormatPart> = Vec::new();
    let mut pos: usize = 0;
    proof {
        assert(parts_view(parts@) =~= Seq::<FormatPartModel>::empty());
        assert(prepend(parts_view(parts@), parse_parts(s@, 0)) =~= parse_parts(s@, 0));
    }
    while pos < s.len()
        invariant
            0 <= pos <= s@.len(),
            s@ == fmt@,
            prepend(parts_view(parts@), parse_parts(s@, pos as int)) == parse_parts(s@, 0),
        decreases s@.len() - pos,
    {
        let i = find_char_at(s, pos, '%');
        proof {
            lemma_find_char(s@, pos as int, '%');
        }
        let ghost before = parts@;
        if i >= s.len() {
            parts.push(FormatPart::Literal(substring(s, pos, s.len())));
            proof {
                assert(parts_view(parts@) =~= parts_view(before) + seq![
                    FormatPartModel::Literal(s@.subrange(pos as int, s@.len() as int)),
                ]);
                assert(parse_parts(s@, s@.len() as int) == Ok::<Seq<FormatPartModel>, Seq<char>>(seq![]));
                assert(parts_view(parts@) + Seq::<FormatPartModel>::empty() =~= parts_view(parts@));
            }
            pos = s.len();
        } else {
            if i > pos {
                parts.push(FormatPart::Literal(substring(s, pos, i)));
            }
            let ghost with_lit = parts@;
            proof {
                lemma_parse_code_advances(s@, i + 1);
            }
            match parse_code_at(s, i + 1) {
                Ok((code, q)) => {
                    parts.push(FormatPart::Code(code));
                    proof {
                        let lit = if i > pos {
                            seq![FormatPartModel::Literal(s@.subrange(pos as int, i as int))]
                        } else {
                            Seq::<FormatPartModel>::empty()
                        };
                        assert(parts_view(with_lit) =~= parts_view(before) + lit);
                        assert(parts_view(parts@) =~= parts_view(before) + lit + seq![FormatPartModel::Code(code@)]);
                        match parse_parts(s@, q as int) {
                            Ok(rest) => {
                                assert(parts_view(before) + (lit + seq![FormatPartModel::Code(code@)] + rest)
                                    =~= parts_view(parts@) + rest);
                            },
                            Err(m) => {},
                        }
                    }
                    pos = q;
                },
                Err(e) => {
                    return Err(e);
                },
            }
        }
    }
    proof {
        assert(parse_parts(s@, pos as int) == Ok::<Seq<FormatPartModel>, Seq<char>>(seq![]));
        assert(parts_view(parts@) + Seq::<FormatPartModel>::empty() =~= parts_view(parts@));
    }
    Ok(parts)
}

/// How many bytes UTF-8 takes for a character.
pub open spec fn utf8_width(c: char) -> nat {
    if (c as u32) < 0x80 {
        1
    } else if (c as u32) < 0x800 {
        2
    } else if (c as u32) < 0x10000 {
        3
    } else {
        4
    }
}

/// How many bytes UTF-8 takes for a string.
pub open spec fn utf8_len(s: Seq<char>) -> nat
    decreases s.len(),
{
    if s.len() == 0 {
        0
    } else {
        utf8_len(s.drop_last()) + utf8_width(s.last())
    }
}

/// `a - b`, or 0 where `b` is larger.
pub open spec fn saturating_sub(a: int, b: int) -> int {
    if a > b {
        a - b
    } else {
        0
    }
}

/// The number of zeros that padding adds: enough for `min_digits` digits
/// and for `min_chars` in all, whichever is more.
pub open spec fn pad_of(min_digits: int, digits_len: int, min_chars: int, unpadded_len: int) -> int {
    if saturating_sub(min_digits, digits_len) >= saturating_sub(min_chars, unpadded_len) {
        saturating_sub(min_digits, digits_len)
    } else {
        saturating_sub(min_chars, unpadded_len)
    }
}

/// `n` zeros.
pub open spec fn zeros(n: nat) -> Seq<char> {
    Seq::new(n, |i: int| '0')
}

/// The sign in front of a number: `-` for a negative one, else `+` or a
/// space where asked.
pub open spec fn sign_text(is_neg: bool, plus: bool, blank: bool) -> Seq<char> {
    if is_neg {
        seq!['-']
    } else if plus {
        seq!['+']
    } else if blank {
        seq![' ']
    } else {
        seq![]
    }
}

/// Digits with their sign and the zeros that bring them to `min_digits`
/// digits and the whole to `min_chars` bytes.
pub open spec fn decorate_model(
    digits: Seq<char>,
    is_neg: bool,
    min_chars: nat,
    min_digits: nat,
    sign: bool,
    blank: bool,
) -> Seq<char> {
    let head = sign_text(is_neg, sign, blank);
    let pad = pad_of(min_digits as int, utf8_len(digits) as int, min_chars as int, (head.len() + utf8_len(digits)) as int);
    head + zeros(pad as nat) + digits
}

/// The digits of `mag` in base `radix`, most significant first; none for 0.
pub open spec fn radix_digits(mag: nat, radix: nat) -> Seq<char>
    decreases mag,
{
    if mag == 0 || radix < 2 {
        seq![]
    } else {
        proof {
            assert(mag / radix < mag) by (nonlinear_arith)
                requires
                    mag > 0,
                    radix >= 2,
            ;
        }
        radix_digits(mag / radix, radix) + seq![((48 + mag % radix) as u32) as char]
    }
}

/// The text of an integer in base `radix` before its sign and padding:
/// `0`, or the prefix and the digits.
pub open spec fn int_digits(mag: nat, radix: nat, zero_prefix: Seq<char>) -> Seq<char> {
    if mag == 0 {
        seq!['0']
    } else {
        zero_prefix + radix_digits(mag, radix)
    }
}

/// A hexadecimal digit.
pub open spec fn hex_numeral(d: nat, capitals: bool) -> char {
    if d < 10 {
        ((48 + d) as u32) as char
    } else if capitals {
        ((55 + d) as u32) as char
    } else {
        ((87 + d) as u32) as char
    }
}

/// The hexadecimal digits of `mag`, most significant first; none for 0.
pub open spec fn hex_digits(mag: nat, capitals: bool) -> Seq<char>
    decreases mag,
{
    if mag == 0 {
        seq![]
    } else {
        hex_digits(mag / 16, capitals) + seq![hex_numeral(mag % 16, capitals)]
    }
}

/// A number in hexadecimal with its sign, `0x` where asked, and the zeros
/// that bring the digits to `min_digits` and the whole to `min_chars`.
pub open spec fn hex_model(
    neg: bool,
    mag: nat,
    min_chars: nat,
    min_digits: nat,
    blank: bool,
    plus: bool,
    add_zerox: bool,
    capitals: bool,
) -> Seq<char> {
    let digits = hex_text(mag, capitals);
    let head = hex_head(neg, plus, blank, add_zerox, capitals);
    let pad = pad_of(min_digits as int, digits.len() as int, min_chars as int, (head.len() + digits.len()) as int);
    head + zeros(pad as nat) + digits
}

/// The hexadecimal digits of a number: `0` for 0.
pub open spec fn hex_text(mag: nat, capitals: bool) -> Seq<char> {
    if mag == 0 {
        seq!['0']
    } else {
        hex_digits(mag, capitals)
    }
}

/// What stands before the digits of a hexadecimal number: its sign, then
/// `0x` or `0X` where asked.
pub open spec fn hex_head(neg: bool, plus: bool, blank: bool, add_zerox: bool, capitals: bool) -> Seq<char> {
    sign_text(neg, plus, blank) + if add_zerox {
        if capitals {
            seq!['0', 'X']
        } else {
            seq!['0', 'x']
        }
    } else {
        seq![]
    }
}

proof fn lemma_utf8_len_bound(s: Seq<char>)
    ensures
        utf8_len(s) <= 4 * s.len(),
    decreases s.len(),
{
    if s.len() > 0 {
        lemma_utf8_len_bound(s.drop_last());
    }
}

/// The UTF-8 length of the characters of `s`.
pub(crate) fn utf8_length(s: &[char]) -> (res: u128)
    ensures
        res == utf8_len(s@),
{
    let mut n: u128 = 0;
    let mut i: usize = 0;
    while i < s.len()
        invariant
            0 <= i <= s@.len(),
            n == utf8_len(s@.subrange(0, i as int)),
        decreases s@.len() - i,
    {
        proof {
            let sub = s@.subrange(0, i + 1);
            assert(sub.drop_last() =~= s@.subrange(0, i as int));
            lemma_utf8_len_bound(s@.subrange(0, i as int));
        }
        let u = s[i] as u32;
        let w: u128 = if u < 0x80 {
            1
        } else if u < 0x800 {
            2
        } else if u < 0x10000 {
            3
        } else {
            4
        };
        n = n + w;
        i += 1;
    }
    proof {
        assert(s@.subrange(0, i as int) =~= s@);
    }
    n
}

fn push_zeros(out: &mut Vec<char>, n: usize)
    ensures
        final(out)@ == old(out)@ + zeros(n as nat),
{
    let mut i: usize = 0;
    while i < n
        invariant
            0 <= i <= n,
            out@ == old(out)@ + zeros(i as nat),
        decreases n - i,
    {
        out.push('0');
        i += 1;
        proof {
            assert(out@ =~= old(out)@ + zeros(i as nat));
        }
    }
}

fn push_sign(out: &mut Vec<char>, is_neg: bool, plus: bool, blank: bool)
    ensures
        final(out)@ == old(out)@ + sign_text(is_neg, plus, blank),
{
    if is_neg {
        out.push('-');
    } else if plus {
        out.push('+');
    } else if blank {
        out.push(' ');
    }
    proof {
        assert(out@ =~= old(out)@ + sign_text(is_neg, plus, blank));
    }
}

/// The larger of the two paddings, each cut at zero.
fn pad_length(min_digits: usize, digits_len: u128, min_chars: usize, unpadded_len: u128) -> (res: usize)
    ensures
        res == pad_of(min_digits as int, digits_len as int, min_chars as int, unpadded_len as int),
{
    let a: usize = if (min_digits as u128) > digits_len {
        (min_digits as u128 - digits_len) as usize
    } else {
        0
    };
    let b: usize = if (min_chars as u128) > unpadded_len {
        (min_chars as u128 - unpadded_len) as usize
    } else {
        0
    };
    if a >= b {
        a
    } else {
        b
    }
}

/// Digits with their sign, and zeros up to `min_digits` digits and up to
/// `min_chars` bytes in all.
pub fn decorate_digits(
    digits: &str,
    is_neg: bool,
    min_chars: usize,
    min_digits: usize,
    sign: bool,
    blank: bool,
) -> (res: String)
    ensures
        res@ == decorate_model(digits@, is_neg, min_chars as nat, min_digits as nat, sign, blank),
{
    let cs = chars_of(digits);
    let mut out: Vec<char> = Vec::new();
    push_sign(&mut out, is_neg, sign, blank);
    let head_len = out.len() as u128;
    let n = cs.len();
    let digits_len = utf8_length(cs.as_slice());
    proof {
        lemma_utf8_len_bound(cs@);
        assert(digits_len <= 4 * n);
        assert(out@ == Seq::<char>::empty() + sign_text(is_neg, sign, blank));
        assert(head_len <= 1);
    }
    let pad = pad_length(min_digits, digits_len, min_chars, head_len + digits_len);
    push_zeros(&mut out, pad);
    push_chars(&mut out, cs.as_slice());
    proof {
        let head = sign_text(is_neg, sign, blank);
        assert(out@ =~= head + zeros(pad as nat) + digits@);
    }
    string_from_chars(out.as_slice())
}

/// The digits of `mag` in base `radix`.
fn radix_digits_of(mag: u128, radix: u8) -> (res: Vec<char>)
    requires
        2 <= radix <= 36,
    ensures
        res@ == radix_digits(mag as nat, radix as nat),
{
    let mut rev: Vec<char> = Vec::new();
    let mut m = mag;
    let r = radix as u128;
    while m != 0
        invariant
            r == radix as u128,
            2 <= r <= 36,
            radix_digits(mag as nat, r as nat) == radix_digits(m as nat, r as nat) + rev@.reverse(),
        decreases m,
    {
        let d = (m % r) as u32;
        let c = ((48 + d) as u8) as char;
        proof {
            assert(radix_digits(m as nat, r as nat) == radix_digits((m / r) as nat, r as nat) + seq![c]);
            let new_rev = rev@.push(c);
            assert(new_rev.reverse() =~= seq![c] + rev@.reverse());
            assert(radix_digits(mag as nat, r as nat) =~= radix_digits((m / r) as nat, r as nat) + new_rev.reverse());
        }
        rev.push(c);
        m = m / r;
    }
    let mut out: Vec<char> = Vec::new();
    let mut i = rev.len();
    while i > 0
        invariant
            0 <= i <= rev@.len(),
            out@ == rev@.subrange(i as int, rev@.len() as int).reverse(),
        decreases i,
    {
        i -= 1;
        out.push(rev[i]);
        proof {
            assert(out@ =~= rev@.subrange(i as int, rev@.len() as int).reverse());
        }
    }
    proof {
        assert(rev@.subrange(0, rev@.len() as int) =~= rev@);
        assert(radix_digits(0, radix as nat) =~= Seq::<char>::empty());
        assert(radix_digits(mag as nat, radix as nat) =~= rev@.reverse());
    }
    out
}

/// An integer in base `radix` with its sign, its prefix, and zeros up to
/// `min_digits` digits (the prefix counted) and `min_chars` bytes in all.
pub fn render_int(
    neg: bool,
    mag: u128,
    min_chars: usize,
    min_digits: usize,
    blank: bool,
    plus: bool,
    radix: u8,
    zero_prefix: &str,
) -> (res: String)
    requires
        2 <= radix <= 36,
    ensures
        res@ == decorate_model(
            int_digits(mag as nat, radix as nat, zero_prefix@),
            neg,
            min_chars as nat,
            min_digits as nat,
            plus,
            blank,
        ),
{
    let mut digits: Vec<char> = Vec::new();
    if mag == 0 {
        digits.push('0');
        proof {
            assert(digits@ =~= seq!['0']);
        }
    } else {
        push_str(&mut digits, zero_prefix);
        let ds = radix_digits_of(mag, radix);
        push_chars(&mut digits, ds.as_slice());
        proof {
            assert(digits@ =~= zero_prefix@ + radix_digits(mag as nat, radix as nat));
        }
    }
    let text = string_from_chars(digits.as_slice());
    decorate_digits(text.as_str(), neg, min_chars, min_digits, plus, blank)
}

fn hex_char(d: u32, capitals: bool) -> (res: char)
    requires
        d < 16,
    ensures
        res == hex_numeral(d as nat, capitals),
{
    if d < 10 {
        ((48 + d) as u8) as char
    } else if capitals {
        ((55 + d) as u8) as char
    } else {
        ((87 + d) as u8) as char
    }
}

/// The hexadecimal digits of `mag`.
fn hex_digits_of(mag: u128, capitals: bool) -> (res: Vec<char>)
    ensures
        res@ == hex_digits(mag as nat, capitals),
{
    let mut rev: Vec<char> = Vec::new();
    let mut m = mag;
    while m != 0
        invariant
            hex_digits(mag as nat, capitals) == hex_digits(m as nat, capitals) + rev@.reverse(),
        decreases m,
    {
        let d = (m % 16) as u32;
        let c = hex_char(d, capitals);
        proof {
            assert(hex_digits(m as nat, capitals) == hex_digits((m / 16) as nat, capitals) + seq![c]);
            let new_rev = rev@.push(c);
            assert(new_rev.reverse() =~= seq![c] + rev@.reverse());
            assert(hex_digits(mag as nat, capitals) =~= hex_digits((m / 16) as nat, capitals) + new_rev.reverse());
        }
        rev.push(c);
        m = m / 16;
    }
    let mut out: Vec<char> = Vec::new();
    let mut i = rev.len();
    while i > 0
        invariant
            0 <= i <= rev@.len(),
            out@ == rev@.subrange(i as int, rev@.len() as int).reverse(),
        decreases i,
    {
        i -= 1;
        out.push(rev[i]);
        proof {
            assert(out@ =~= rev@.subrange(i as int, rev@.len() as int).reverse());
        }
    }
    proof {
        assert(rev@.subrange(0, rev@.len() as int) =~= rev@);
        assert(hex_digits(0, capitals) =~= Seq::<char>::empty());
        assert(hex_digits(mag as nat, capitals) =~= rev@.reverse());
    }
    out
}

fn hex_text_of(mag: u128, capitals: bool) -> (res: Vec<char>)
    ensures
        res@ == hex_text(mag as nat, capitals),
{
    if mag == 0 {
        let mut d: Vec<char> = Vec::new();
        d.push('0');
        proof {
            assert(d@ =~= seq!['0']);
        }
        d
    } else {
        hex_digits_of(mag, capitals)
    }
}

fn hex_head_of(neg: bool, plus: bool, blank: bool, add_zerox: bool, capitals: bool) -> (res: Vec<char>)
    ensures
        res@ == hex_head(neg, plus, blank, add_zerox, capitals),
{
    let mut out: Vec<char> = Vec::new();
    push_sign(&mut out, neg, plus, blank);
    if add_zerox {
        out.push('0');
        if capitals {
            out.push('X');
        } else {
            out.push('x');
        }
    }
    proof {
        assert(out@ =~= hex_head(neg, plus, blank, add_zerox, capitals));
    }
    out
}

/// An integer in hexadecimal with its sign, `0x` where asked, and zeros up
/// to `min_digits` digits and `min_chars` characters in all.
pub fn render_hex(
    neg: bool,
    mag: u128,
    min_chars: usize,
    min_digits: usize,
    blank: bool,
    plus: bool,
    add_zerox: bool,
    capitals: bool,
) -> (res: String)
    ensures
        res@ == hex_model(neg, mag as nat, min_chars as nat, min_digits as nat, blank, plus, add_zerox, capitals),
{
    let digits = hex_text_of(mag, capitals);
    let mut out = hex_head_of(neg, plus, blank, add_zerox, capitals);
    let ghost head = out@;
    let pad = pad_length(min_digits, digits.len() as u128, min_chars, (out.len() as u128) + (digits.len() as u128));
    push_zeros(&mut out, pad);
    push_chars(&mut out, digits.as_slice());
    proof {
        assert(out@ =~= head + zeros(pad as nat) + digits@);
    }
    string_from_chars(out.as_slice())
}

/// A natural number in decimal.
pub fn decimal_text(n: u128) -> (res: String)
    ensures
        res@ == int_digits(n as nat, 10, seq![]),
{
    let digits = render_int(false, n, 0, 0, false, false, 10, "");
    proof {
        reveal_strlit("");
        assert(""@ =~= Seq::<char>::empty());
        assert(digits@ =~= int_digits(n as nat, 10, seq![]));
    }
    digits
}

} // verus!
