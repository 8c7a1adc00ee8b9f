//! `std.format` with an array or an object of values: which value each `%`
//! code takes, the checks on widths and precisions, and what each code
//! makes of its value, laid out in its field.

use vstd::prelude::*;
use crate::value::{Value, ValueModel};
use crate::error::{EvalErrorKind, EvalErrorValueType, is_other_error, other_error, type_of, value_type_text};
use crate::format::{
    ConvType, CFlags, FieldWidth, FormatCode, FormatCodeModel, FormatPart, FormatPartModel, parts_view, utf8_len,
    utf8_length, int_digits, decimal_text,
};
use crate::manifest::{to_string_model, value_to_string};
use crate::text::{chars_of, string_from_chars, push_chars, concat_str, is_scalar, char_from_u32, debug_str, debug_str_text};

verus! {

/// A value handed to `std.format`, with what the number it may be converts
/// to as a `u32` (where it is a number that does).
pub struct FormatArg {
    pub value: Value,
    pub as_u32: Option<u32>,
}

/// The model of a [`FormatArg`].
pub struct FormatArgModel {
    pub value: ValueModel,
    pub as_u32: Option<u32>,
}

impl View for FormatArg {
    type V = FormatArgModel;

    open spec fn view(&self) -> FormatArgModel {
        FormatArgModel { value: self.value@, as_u32: self.as_u32 }
    }
}

/// A number that a numeric code converts: the code's conversion and flags,
/// the zero padding, the precisions for integer and floating-point
/// conversions, and the width of its field.
pub struct NumberCode {
    pub number: String,
    pub ctype: ConvType,
    pub cflags: CFlags,
    pub zero_pad: usize,
    pub int_prec: usize,
    pub float_prec: usize,
    pub width: usize,
}

/// The model of a [`NumberCode`].
pub struct NumberCodeModel {
    pub number: Seq<char>,
    pub ctype: ConvType,
    pub cflags: CFlags,
    pub zero_pad: nat,
    pub int_prec: nat,
    pub float_prec: nat,
    pub width: nat,
}

impl View for NumberCode {
    type V = NumberCodeModel;

    open spec fn view(&self) -> NumberCodeModel {
        NumberCodeModel {
            number: self.number@,
            ctype: self.ctype,
            cflags: self.cflags,
            zero_pad: self.zero_pad as nat,
            int_prec: self.int_prec as nat,
            float_prec: self.float_prec as nat,
            width: self.width as nat,
        }
    }
}

/// A piece of formatted text: text laid out in its field, or a number that
/// is written from its binary value and then laid out in its field.
pub enum FormatPiece {
    Text(String),
    Number(NumberCode),
}

/// The model of a [`FormatPiece`].
pub enum FormatPieceModel {
    Text(Seq<char>),
    Number(NumberCodeModel),
}

impl View for FormatPiece {
    type V = FormatPieceModel;

    open spec fn view(&self) -> FormatPieceModel {
        match self {
            FormatPiece::Text(s) => FormatPieceModel::Text(s@),
            FormatPiece::Number(n) => FormatPieceModel::Number(n@),
        }
    }
}

/// The models of a sequence of pieces.
pub open spec fn pieces_view(pieces: Seq<FormatPiece>) -> Seq<FormatPieceModel> {
    pieces.map_values(|p: FormatPiece| p@)
}

/// `n` spaces.
pub open spec fn spaces(n: nat) -> Seq<char> {
    Seq::new(n, |i: int| ' ')
}

/// Text laid out in a field of `fw`: where its UTF-8 form is shorter than
/// `fw` bytes, spaces fill it to `fw` characters, after the text where
/// `left`, else before it.
pub open spec fn pad_model(s: Seq<char>, fw: nat, left: bool) -> Seq<char> {
    if utf8_len(s) < fw {
        if left {
            s + spaces((fw - s.len()) as nat)
        } else {
            spaces((fw - s.len()) as nat) + s
        }
    } else {
        s
    }
}

/// How error messages name the numeric conversions.
pub open spec fn number_conv_name(c: ConvType) -> Seq<char> {
    match c {
        ConvType::Decimal => "'i' / 'd'"@,
        ConvType::Octal => "'o'"@,
        ConvType::HexLower | ConvType::HexUpper => "'x' / 'X'"@,
        ConvType::ExpLower | ConvType::ExpUpper => "'e' / 'E'"@,
        ConvType::FloatLower | ConvType::FloatUpper => "'f' / 'F'"@,
        _ => "'g' / 'G'"@,
    }
}

/// Whether a conversion writes a number from its binary value.
pub open spec fn is_number_conv(c: ConvType) -> bool {
    !(c == ConvType::Char || c == ConvType::String || c == ConvType::Percent)
}

/// What a code makes of its value, with field width `fw` and precision
/// `prec`: a piece, or the message of the error.
pub open spec fn code_piece(code: FormatCodeModel, arg: FormatArgModel, fw: nat, prec: nat) -> Result<
    FormatPieceModel,
    Seq<char>,
> {
    let left = code.cflags.left;
    match code.ctype {
        ConvType::Char => match arg.value {
            ValueModel::String(s) => if s.len() != 1 {
                Err("'c' formatting requires a string of length 1, got "@ + int_digits(s.len(), 10, seq![]))
            } else {
                Ok(FormatPieceModel::Text(pad_model(s, fw, left)))
            },
            ValueModel::Number(t) => if arg.as_u32 is Some && is_scalar(arg.as_u32->0) {
                Ok(FormatPieceModel::Text(pad_model(seq![arg.as_u32->0 as char], fw, left)))
            } else {
                Err(t + " is not a valid unicode codepoint"@)
            },
            v => Err("'c' formatting requires a string or a number, got "@ + value_type_text(type_of(v))),
        },
        ConvType::String => Ok(FormatPieceModel::Text(pad_model(to_string_model(arg.value), fw, left))),
        ConvType::Percent => Ok(FormatPieceModel::Text(pad_model(seq!['%'], fw, left))),
        _ => match arg.value {
            ValueModel::Number(t) => Ok(
                FormatPieceModel::Number(
                    NumberCodeModel {
                        number: t,
                        ctype: code.ctype,
                        cflags: code.cflags,
                        zero_pad: if code.cflags.zero && !left {
                            fw
                        } else {
                            0
                        },
                        int_prec: if code.prec is Some {
                            prec
                        } else {
                            0
                        },
                        float_prec: if code.prec is Some {
                            prec
                        } else {
                            6
                        },
                        width: fw,
                    },
                ),
            ),
            v => Err(number_conv_name(code.ctype) + " formatting requires a number, got "@ + value_type_text(type_of(v))),
        },
    }
}

/// How a numeric code lays out its number: in a field of the code's width,
/// padded with zeros to that width only where the `0` flag is given without
/// the `-` flag; a left-justified number (`-`) is never padded with zeros,
/// its field is filled with spaces after it.
pub proof fn law_number_padding(code: FormatCodeModel, arg: FormatArgModel, fw: nat, prec: nat)
    ensures
        code_piece(code, arg, fw, prec) matches Ok(FormatPieceModel::Number(n)) ==> {
            &&& n.width == fw
            &&& n.cflags == code.cflags
            &&& (code.cflags.left ==> n.zero_pad == 0)
            &&& (!code.cflags.zero ==> n.zero_pad == 0)
            &&& (code.cflags.zero && !code.cflags.left ==> n.zero_pad == fw)
        },
{
}

/// Text laid out in a field: where its UTF-8 form is shorter than the
/// width, the field is exactly `fw` characters, the text at its start where
/// `left` (the `-` flag) and at its end otherwise, and spaces in the rest;
/// else the text as it is.
pub proof fn law_pad_field(s: Seq<char>, fw: nat, left: bool)
    ensures
        utf8_len(s) >= fw ==> pad_model(s, fw, left) == s,
        utf8_len(s) < fw ==> pad_model(s, fw, left).len() == fw,
        utf8_len(s) < fw && left ==> pad_model(s, fw, left).subrange(0, s.len() as int) == s,
        utf8_len(s) < fw && left ==> forall|i: int| s.len() <= i < fw ==> #[trigger] pad_model(s, fw, left)[i] == ' ',
        utf8_len(s) < fw && !left ==> pad_model(s, fw, left).subrange(fw - s.len(), fw as int) == s,
        utf8_len(s) < fw && !left ==> forall|i: int| 0 <= i < fw - s.len() ==> #[trigger] pad_model(s, fw, left)[i] == ' ',
{
    lemma_utf8_len_at_least(s);
    let p = pad_model(s, fw, left);
    if utf8_len(s) < fw {
        let n = (fw - s.len()) as nat;
        if left {
            assert(p.subrange(0, s.len() as int) =~= s);
        } else {
            assert(p.subrange(n as int, fw as int) =~= s);
        }
    }
}

proof fn lemma_utf8_len_at_least(s: Seq<char>)
    ensures
        s.len() <= utf8_len(s),
    decreases s.len(),
{
    if s.len() > 0 {
        lemma_utf8_len_at_least(s.drop_last());
    }
}

fn push_spaces(out: &mut Vec<char>, n: usize)
    ensures
        final(out)@ == old(out)@ + spaces(n as nat),
{
    let mut i: usize = 0;
    while i < n
        invariant
            0 <= i <= n,
            out@ == old(out)@ + spaces(i as nat),
        decreases n - i,
    {
        out.push(' ');
        i = i + 1;
        proof {
            assert(out@ =~= old(out)@ + spaces(i as nat));
        }
    }
}

/// Lays out text in a field of `fw` (see [`pad_model`]).
pub fn pad_field(s: &str, fw: usize, left: bool) -> (res: String)
    ensures
        res@ == pad_model(s@, fw as nat, left),
{
    let cs = chars_of(s);
    let n = utf8_length(cs.as_slice());
    let mut out: Vec<char> = Vec::new();
    if n < fw as u128 {
        proof {
            lemma_utf8_len_at_least(s@);
        }
        let pad = fw - cs.len();
        if left {
            push_chars(&mut out, cs.as_slice());
            push_spaces(&mut out, pad);
        } else {
            push_spaces(&mut out, pad);
            push_chars(&mut out, cs.as_slice());
        }
    } else {
        push_chars(&mut out, cs.as_slice());
    }
    proof {
        assert(Seq::<char>::empty() + s@ =~= s@);
        assert(Seq::<char>::empty() + spaces((fw - s@.len()) as nat) =~= spaces((fw - s@.len()) as nat));
    }
    string_from_chars(out.as_slice())
}

fn number_conv_text(c: ConvType) -> (res: &'static str)
    ensures
        res@ == number_conv_name(c),
{
    match c {
        ConvType::Decimal => "'i' / 'd'",
        ConvType::Octal => "'o'",
        ConvType::HexLower | ConvType::HexUpper => "'x' / 'X'",
        ConvType::ExpLower | ConvType::ExpUpper => "'e' / 'E'",
        ConvType::FloatLower | ConvType::FloatUpper => "'f' / 'F'",
        _ => "'g' / 'G'",
    }
}

/// Applies one code to its value, with field width `fw` and precision
/// `prec` (see [`code_piece`]).
pub fn format_code(code: &FormatCode, arg: &FormatArg, fw: u32, prec: u32) -> (res: Result<FormatPiece, EvalErrorKind>)
    ensures
        match code_piece(code@, arg@, fw as nat, prec as nat) {
            Ok(p) => res matches Ok(r) && r@ == p,
            Err(m) => res matches Err(e) && is_other_error(e, m),
        },
{
    let left = code.cflags.left;
    let fwu = fw as usize;
    match code.ctype {
        ConvType::Char => match &arg.value {
            Value::String(s) => {
                let cs = chars_of(s.as_str());
                if cs.len() != 1 {
                    let n = decimal_text(cs.len() as u128);
                    Err(other_error(concat_str("'c' formatting requires a string of length 1, got ", n.as_str())))
                } else {
                    Ok(FormatPiece::Text(pad_field(s.as_str(), fwu, left)))
                }
            },
            Value::Number(t) => {
                match arg.as_u32 {
                    Some(u) => match char_from_u32(u) {
                        Some(c) => {
                            let mut v: Vec<char> = Vec::new();
                            v.push(c);
                            let one = string_from_chars(v.as_slice());
                            proof {
                                assert(one@ =~= seq![u as char]);
                            }
                            Ok(FormatPiece::Text(pad_field(one.as_str(), fwu, left)))
                        },
                        None => Err(other_error(concat_str(t.as_str(), " is not a valid unicode codepoint"))),
                    },
                    None => Err(other_error(concat_str(t.as_str(), " is not a valid unicode codepoint"))),
                }
            },
            v => {
                let ty = EvalErrorValueType::from_value(v);
                Err(other_error(concat_str("'c' formatting requires a string or a number, got ", ty.to_str())))
            },
        },
        ConvType::String => {
            let s = value_to_string(&arg.value);
            Ok(FormatPiece::Text(pad_field(s.as_str(), fwu, left)))
        },
        ConvType::Percent => {
            let mut v: Vec<char> = Vec::new();
            v.push('%');
            let pct = string_from_chars(v.as_slice());
            proof {
                assert(pct@ =~= seq!['%']);
            }
            Ok(FormatPiece::Text(pad_field(pct.as_str(), fwu, left)))
        },
        _ => match &arg.value {
            Value::Number(t) => {
                let zero_pad: usize = if code.cflags.zero && !left {
                    fwu
                } else {
                    0
                };
                let int_prec: usize = if code.prec.is_some() {
                    prec as usize
                } else {
                    0
                };
                let float_prec: usize = if code.prec.is_some() {
                    prec as usize
                } else {
                    6
                };
                let number = string_from_chars(chars_of(t.as_str()).as_slice());
                Ok(
                    FormatPiece::Number(
                        NumberCode {
                            number,
                            ctype: code.ctype,
                            cflags: code.cflags,
                            zero_pad,
                            int_prec,
                            float_prec,
                            width: fwu,
                        },
                    ),
                )
            },
            v => {
                let ty = EvalErrorValueType::from_value(v);
                let head = concat_str(number_conv_text(code.ctype), " formatting requires a number, got ");
                Err(other_error(concat_str(head.as_str(), ty.to_str())))
            },
        },
    }
}


/// The models of a sequence of values handed to `std.format`.
pub open spec fn args_view(args: Seq<FormatArg>) -> Seq<FormatArgModel> {
    args.map_values(|a: FormatArg| a@)
}

/// The outcome of laying out a format with an array of values: the pieces,
/// the message of an error, or a code that takes a value where none is
/// left (the array is indexed past its end there).
pub enum FormatOutcome {
    Done(Seq<FormatPieceModel>),
    Fail(Seq<char>),
    OutOfItems,
}

/// An outcome with `p` in front of its pieces.
pub open spec fn then_piece(p: FormatPieceModel, o: FormatOutcome) -> FormatOutcome {
    match o {
        FormatOutcome::Done(ps) => FormatOutcome::Done(seq![p] + ps),
        other => other,
    }
}

/// An outcome with `acc` in front of its pieces.
pub open spec fn after_pieces(acc: Seq<FormatPieceModel>, o: FormatOutcome) -> FormatOutcome {
    match o {
        FormatOutcome::Done(ps) => FormatOutcome::Done(acc + ps),
        other => other,
    }
}

/// A field width or precision (`what`) taken from a value.
pub open spec fn width_value(arg: FormatArgModel, what: Seq<char>) -> Result<nat, Seq<char>> {
    match arg.value {
        ValueModel::Number(t) => match arg.as_u32 {
            Some(u) => Ok(u as nat),
            None => Err("invalid format "@ + what + " value: "@ + t),
        },
        v => Err("format "@ + what + " must be a number, got "@ + value_type_text(type_of(v))),
    }
}

/// The message for a `*` that finds no value left.
pub open spec fn not_enough_message(n: nat) -> Seq<char> {
    "not enough array items for format, got "@ + int_digits(n, 10, seq![])
}

/// The message for values left over.
pub open spec fn too_many_message(expected: nat, got: nat) -> Seq<char> {
    "too many array items for format: expected "@ + int_digits(expected, 10, seq![]) + ", got "@ + int_digits(
        got,
        10,
        seq![],
    )
}

/// `std.format` of the parts from `part_i` on with the values from
/// `array_i` on: a literal is itself; a code takes its field width and then
/// its precision from the values where they are `*`, checks the
/// precision (where its conversion reads one) and then the width, and then
/// takes its value (but for `%%`); values left over are an error.
pub open spec fn format_array_from(
    parts: Seq<FormatPartModel>,
    args: Seq<FormatArgModel>,
    part_i: nat,
    array_i: nat,
) -> FormatOutcome
    decreases parts.len() - part_i,
{
    if part_i >= parts.len() {
        if array_i < args.len() {
            FormatOutcome::Fail(too_many_message(array_i, args.len()))
        } else {
            FormatOutcome::Done(seq![])
        }
    } else {
        match parts[part_i as int] {
            FormatPartModel::Literal(s) => then_piece(
                FormatPieceModel::Text(s),
                format_array_from(parts, args, part_i + 1, array_i),
            ),
            FormatPartModel::Code(code) => {
                let fw_ext = code.fw == Some(FieldWidth::External);
                let prec_ext = code.prec == Some(FieldWidth::External);
                let a1 = if fw_ext {
                    array_i + 1
                } else {
                    array_i
                };
                let a2 = if prec_ext {
                    a1 + 1
                } else {
                    a1
                };
                if fw_ext && array_i >= args.len() {
                    FormatOutcome::Fail(not_enough_message(args.len()))
                } else if prec_ext && a1 >= args.len() {
                    FormatOutcome::Fail(not_enough_message(args.len()))
                } else {
                    let prec_r: Result<nat, Seq<char>> = if code.prec is Some && is_number_conv(code.ctype) {
                        match code.prec {
                            Some(FieldWidth::Inline(v)) => Ok(v as nat),
                            _ => width_value(args[a1 as int], "precision"@),
                        }
                    } else {
                        Ok(0nat)
                    };
                    let fw_r: Result<nat, Seq<char>> = match code.fw {
                        None => Ok(0nat),
                        Some(FieldWidth::Inline(v)) => Ok(v as nat),
                        Some(FieldWidth::External) => width_value(args[array_i as int], "field width"@),
                    };
                    match prec_r {
                        Err(m) => FormatOutcome::Fail(m),
                        Ok(prec) => match fw_r {
                            Err(m) => FormatOutcome::Fail(m),
                            Ok(fw) => if code.ctype == ConvType::Percent {
                                then_piece(
                                    FormatPieceModel::Text(pad_model(seq!['%'], fw, code.cflags.left)),
                                    format_array_from(parts, args, part_i + 1, a2),
                                )
                            } else if a2 >= args.len() {
                                FormatOutcome::OutOfItems
                            } else {
                                match code_piece(code, args[a2 as int], fw, prec) {
                                    Err(m) => FormatOutcome::Fail(m),
                                    Ok(p) => then_piece(p, format_array_from(parts, args, part_i + 1, a2 + 1)),
                                }
                            },
                        },
                    }
                }
            },
        }
    }
}

proof fn lemma_after_then(acc: Seq<FormatPieceModel>, p: FormatPieceModel, o: FormatOutcome)
    ensures
        after_pieces(acc, then_piece(p, o)) == after_pieces(acc.push(p), o),
{
    if let FormatOutcome::Done(ps) = o {
        assert(acc + (seq![p] + ps) =~= acc.push(p) + ps);
    }
}

fn copy_string(s: &String) -> (res: String)
    ensures
        res@ == s@,
{
    string_from_chars(chars_of(s.as_str()).as_slice())
}

fn width_of(arg: &FormatArg, what: &str) -> (res: Result<u32, EvalErrorKind>)
    ensures
        match width_value(arg@, what@) {
            Ok(n) => res matches Ok(u) && u as nat == n,
            Err(m) => res matches Err(e) && is_other_error(e, m),
        },
{
    match &arg.value {
        Value::Number(t) => match arg.as_u32 {
            Some(u) => Ok(u),
            None => {
                let head = concat_str("invalid format ", what);
                let head = concat_str(head.as_str(), " value: ");
                Err(other_error(concat_str(head.as_str(), t.as_str())))
            },
        },
        v => {
            let ty = EvalErrorValueType::from_value(v);
            let head = concat_str("format ", what);
            let head = concat_str(head.as_str(), " must be a number, got ");
            Err(other_error(concat_str(head.as_str(), ty.to_str())))
        },
    }
}

fn not_enough_error(n: usize) -> (res: EvalErrorKind)
    ensures
        is_other_error(res, not_enough_message(n as nat)),
{
    let d = decimal_text(n as u128);
    other_error(concat_str("not enough array items for format, got ", d.as_str()))
}

/// `std.format` with an array of values, where no code that takes a value
/// finds none left: the pieces of the text, the numbers among them still
/// to be written (see [`format_array_from`]); `None` where a code finds no
/// value left.
pub fn try_format_array(parts: &[FormatPart], args: &[FormatArg]) -> (res: Option<
    Result<Vec<FormatPiece>, EvalErrorKind>,
>)
    ensures
        match format_array_from(parts_view(parts@), args_view(args@), 0, 0) {
            FormatOutcome::Done(ps) => res matches Some(Ok(v)) && pieces_view(v@) == ps,
            FormatOutcome::Fail(m) => res matches Some(Err(e)) && is_other_error(e, m),
            FormatOutcome::OutOfItems => res is None,
        },
{
    let ghost pm = parts_view(parts@);
    let ghost am = args_view(args@);
    let mut out: Vec<FormatPiece> = Vec::new();
    let mut part_i: usize = 0;
    let mut array_i: usize = 0;
    proof {
        assert(pieces_view(out@) =~= Seq::<FormatPieceModel>::empty());
        let o = format_array_from(pm, am, 0, 0);
        if let FormatOutcome::Done(ps) = o {
            assert(Seq::<FormatPieceModel>::empty() + ps =~= ps);
        }
    }
    while part_i < parts.len()
        invariant
            pm == parts_view(parts@),
            am == args_view(args@),
            part_i <= parts.len(),
            array_i <= args.len(),
            after_pieces(pieces_view(out@), format_array_from(pm, am, part_i as nat, array_i as nat))
                == format_array_from(pm, am, 0, 0),
        decreases parts.len() - part_i,
    {
        let ghost acc = pieces_view(out@);
        match &parts[part_i] {
            FormatPart::Literal(s) => {
                let piece = FormatPiece::Text(copy_string(s));
                proof {
                    lemma_after_then(acc, piece@, format_array_from(pm, am, (part_i + 1) as nat, array_i as nat));
                }
                out.push(piece);
                proof {
                    assert(pieces_view(out@) =~= acc.push(piece@));
                }
                part_i = part_i + 1;
            },
            FormatPart::Code(code) => {
                let fw_ext = code.fw == Some(FieldWidth::External);
                let prec_ext = code.prec == Some(FieldWidth::External);
                if fw_ext && array_i >= args.len() {
                    return Some(Err(not_enough_error(args.len())));
                }
                let a1 = if fw_ext {
                    array_i + 1
                } else {
                    array_i
                };
                if prec_ext && a1 >= args.len() {
                    return Some(Err(not_enough_error(args.len())));
                }
                let a2 = if prec_ext {
                    a1 + 1
                } else {
                    a1
                };
                let prec: u32 = if code.prec.is_some() && code.uses_prec() {
                    match code.prec {
                        Some(FieldWidth::Inline(v)) => v,
                        _ => match width_of(&args[a1], "precision") {
                            Ok(v) => v,
                            Err(e) => {
                                return Some(Err(e));
                            },
                        },
                    }
                } else {
                    0
                };
                let fw: u32 = match code.fw {
                    None => 0,
                    Some(FieldWidth::Inline(v)) => v,
                    Some(FieldWidth::External) => match width_of(&args[array_i], "field width") {
                        Ok(v) => v,
                        Err(e) => {
                            return Some(Err(e));
                        },
                    },
                };
                if code.ctype == ConvType::Percent {
                    let mut v: Vec<char> = Vec::new();
                    v.push('%');
                    let pct = string_from_chars(v.as_slice());
                    proof {
                        assert(pct@ =~= seq!['%']);
                    }
                    let piece = FormatPiece::Text(pad_field(pct.as_str(), fw as usize, code.cflags.left));
                    proof {
                        lemma_after_then(acc, piece@, format_array_from(pm, am, (part_i + 1) as nat, a2 as nat));
                    }
                    out.push(piece);
                    proof {
                        assert(pieces_view(out@) =~= acc.push(piece@));
                    }
                    part_i = part_i + 1;
                    array_i = a2;
                } else {
                    if a2 >= args.len() {
                        return None;
                    }
                    let piece = match format_code(code, &args[a2], fw, prec) {
                        Ok(p) => p,
                        Err(e) => {
                            return Some(Err(e));
                        },
                    };
                    proof {
                        lemma_after_then(acc, piece@, format_array_from(pm, am, (part_i + 1) as nat, (a2 + 1) as nat));
                    }
                    out.push(piece);
                    proof {
                        assert(pieces_view(out@) =~= acc.push(piece@));
                    }
                    part_i = part_i + 1;
                    array_i = a2 + 1;
                }
            },
        }
    }
    if array_i < args.len() {
        let expected = decimal_text(array_i as u128);
        let got = decimal_text(args.len() as u128);
        let head = concat_str("too many array items for format: expected ", expected.as_str());
        let head = concat_str(head.as_str(), ", got ");
        return Some(Err(other_error(concat_str(head.as_str(), got.as_str()))));
    }
    proof {
        assert(pieces_view(out@) + Seq::<FormatPieceModel>::empty() =~= pieces_view(out@));
    }
    Some(Ok(out))
}


/// `std.format` with an array of values: the pieces of the text, the
/// numbers among them still to be written (see [`format_array_from`]). A
/// format whose codes take more values than the array holds indexes past
/// its end, which is left out.
pub fn format_array(parts: &[FormatPart], args: &[FormatArg]) -> (res: Result<Vec<FormatPiece>, EvalErrorKind>)
    requires
        !(format_array_from(parts_view(parts@), args_view(args@), 0, 0) is OutOfItems),
    ensures
        match format_array_from(parts_view(parts@), args_view(args@), 0, 0) {
            FormatOutcome::Done(ps) => res matches Ok(v) && pieces_view(v@) == ps,
            FormatOutcome::Fail(m) => res matches Err(e) && is_other_error(e, m),
            FormatOutcome::OutOfItems => false,
        },
{
    match try_format_array(parts, args) {
        Some(r) => r,
        None => Err(other_error(String::new())),
    }
}

/// The models of the named values of an object handed to `std.format`.
pub open spec fn named_args_view(fields: Seq<(String, FormatArg)>) -> Seq<(Seq<char>, FormatArgModel)> {
    fields.map_values(|f: (String, FormatArg)| (f.0@, f.1@))
}

/// The value of the first field named `key`, if any.
pub open spec fn find_field(fields: Seq<(Seq<char>, FormatArgModel)>, key: Seq<char>) -> Option<FormatArgModel>
    decreases fields.len(),
{
    if fields.len() == 0 {
        None
    } else if fields[0].0 == key {
        Some(fields[0].1)
    } else {
        find_field(fields.drop_first(), key)
    }
}

/// A result with `p` in front of its pieces.
pub open spec fn then_piece_ok(p: FormatPieceModel, r: Result<Seq<FormatPieceModel>, Seq<char>>) -> Result<
    Seq<FormatPieceModel>,
    Seq<char>,
> {
    match r {
        Ok(ps) => Ok(seq![p] + ps),
        Err(m) => Err(m),
    }
}

/// A result with `acc` in front of its pieces.
pub open spec fn after_pieces_ok(acc: Seq<FormatPieceModel>, r: Result<Seq<FormatPieceModel>, Seq<char>>) -> Result<
    Seq<FormatPieceModel>,
    Seq<char>,
> {
    match r {
        Ok(ps) => Ok(acc + ps),
        Err(m) => Err(m),
    }
}

/// `std.format` of the parts from `part_i` on with the fields of an
/// object: a code may not take its width or precision from `*`, and takes
/// the value of the field its mapping key names (but for `%%`).
pub open spec fn format_object_from(
    parts: Seq<FormatPartModel>,
    fields: Seq<(Seq<char>, FormatArgModel)>,
    part_i: nat,
) -> Result<Seq<FormatPieceModel>, Seq<char>>
    decreases parts.len() - part_i,
{
    if part_i >= parts.len() {
        Ok(seq![])
    } else {
        match parts[part_i as int] {
            FormatPartModel::Literal(s) => then_piece_ok(
                FormatPieceModel::Text(s),
                format_object_from(parts, fields, part_i + 1),
            ),
            FormatPartModel::Code(code) => if code.fw == Some(FieldWidth::External) {
                Err("'*' field width cannot be used with object formatting"@)
            } else if code.prec == Some(FieldWidth::External) {
                Err("'*' precision cannot be used with object formatting"@)
            } else {
                let fw: nat = match code.fw {
                    Some(FieldWidth::Inline(v)) => v as nat,
                    _ => 0,
                };
                let prec: nat = match code.prec {
                    Some(FieldWidth::Inline(v)) => v as nat,
                    _ => 0,
                };
                if code.ctype == ConvType::Percent {
                    then_piece_ok(
                        FormatPieceModel::Text(pad_model(seq!['%'], fw, code.cflags.left)),
                        format_object_from(parts, fields, part_i + 1),
                    )
                } else {
                    match code.mkey {
                        None => Err("mapping keys are required with object formatting"@),
                        Some(k) => match find_field(fields, k) {
                            None => Err("missing field "@ + debug_str_text(k) + " in object formatting"@),
                            Some(arg) => match code_piece(code, arg, fw, prec) {
                                Err(m) => Err(m),
                                Ok(p) => then_piece_ok(p, format_object_from(parts, fields, part_i + 1)),
                            },
                        },
                    }
                }
            },
        }
    }
}

proof fn lemma_after_then_ok(acc: Seq<FormatPieceModel>, p: FormatPieceModel, r: Result<Seq<FormatPieceModel>, Seq<char>>)
    ensures
        after_pieces_ok(acc, then_piece_ok(p, r)) == after_pieces_ok(acc.push(p), r),
{
    if let Ok(ps) = r {
        assert(acc + (seq![p] + ps) =~= acc.push(p) + ps);
    }
}

/// Finds the first field named `key`.
fn find_named<'a>(fields: &'a [(String, FormatArg)], key: &String) -> (res: Option<&'a FormatArg>)
    ensures
        match find_field(named_args_view(fields@), key@) {
            Some(a) => res matches Some(r) && r@ == a,
            None => res is None,
        },
{
    let ghost fm = named_args_view(fields@);
    let mut i: usize = 0;
    proof {
        assert(fm.subrange(0, fm.len() as int) =~= fm);
    }
    while i < fields.len()
        invariant
            fm == named_args_view(fields@),
            i <= fields.len(),
            find_field(fm, key@) == find_field(fm.subrange(i as int, fm.len() as int), key@),
        decreases fields.len() - i,
    {
        let ghost rest = fm.subrange(i as int, fm.len() as int);
        proof {
            assert(rest.drop_first() =~= fm.subrange(i + 1, fm.len() as int));
        }
        if crate::text::str_eq(fields[i].0.as_str(), key.as_str()) {
            return Some(&fields[i].1);
        }
        i = i + 1;
    }
    None
}

/// `std.format` with an object: the pieces of the text, the numbers among
/// them still to be written (see [`format_object_from`]).
pub fn format_object(parts: &[FormatPart], fields: &[(String, FormatArg)]) -> (res: Result<
    Vec<FormatPiece>,
    EvalErrorKind,
>)
    ensures
        match format_object_from(parts_view(parts@), named_args_view(fields@), 0) {
            Ok(ps) => res matches Ok(v) && pieces_view(v@) == ps,
            Err(m) => res matches Err(e) && is_other_error(e, m),
        },
{
    let ghost pm = parts_view(parts@);
    let ghost fm = named_args_view(fields@);
    let mut out: Vec<FormatPiece> = Vec::new();
    let mut part_i: usize = 0;
    proof {
        assert(pieces_view(out@) =~= Seq::<FormatPieceModel>::empty());
        if let Ok(ps) = format_object_from(pm, fm, 0) {
            assert(Seq::<FormatPieceModel>::empty() + ps =~= ps);
        }
    }
    while part_i < parts.len()
        invariant
            pm == parts_view(parts@),
            fm == named_args_view(fields@),
            part_i <= parts.len(),
            after_pieces_ok(pieces_view(out@), format_object_from(pm, fm, part_i as nat)) == format_object_from(
                pm,
                fm,
                0,
            ),
        decreases parts.len() - part_i,
    {
        let ghost acc = pieces_view(out@);
        let piece = match &parts[part_i] {
            FormatPart::Literal(s) => FormatPiece::Text(copy_string(s)),
            FormatPart::Code(code) => {
                if code.fw == Some(FieldWidth::External) {
                    return Err(
                        other_error(String::from_str("'*' field width cannot be used with object formatting")),
                    );
                }
                if code.prec == Some(FieldWidth::External) {
                    return Err(other_error(String::from_str("'*' precision cannot be used with object formatting")));
                }
                let fw: u32 = match code.fw {
                    Some(FieldWidth::Inline(v)) => v,
                    _ => 0,
                };
                let prec: u32 = match code.prec {
                    Some(FieldWidth::Inline(v)) => v,
                    _ => 0,
                };
                if code.ctype == ConvType::Percent {
                    let mut v: Vec<char> = Vec::new();
                    v.push('%');
                    let pct = string_from_chars(v.as_slice());
                    proof {
                        assert(pct@ =~= seq!['%']);
                    }
                    FormatPiece::Text(pad_field(pct.as_str(), fw as usize, code.cflags.left))
                } else {
                    match &code.mkey {
                        None => {
                            return Err(other_error(String::from_str("mapping keys are required with object formatting")));
                        },
                        Some(k) => match find_named(fields, k) {
                            None => {
                                let shown = debug_str(k.as_str());
                                let head = concat_str("missing field ", shown.as_str());
                                return Err(other_error(concat_str(head.as_str(), " in object formatting")));
                            },
                            Some(arg) => match format_code(code, arg, fw, prec) {
                                Ok(p) => p,
                                Err(e) => {
                                    return Err(e);
                                },
                            },
                        },
                    }
                }
            },
        };
        proof {
            lemma_after_then_ok(acc, piece@, format_object_from(pm, fm, (part_i + 1) as nat));
        }
        out.push(piece);
        proof {
            assert(pieces_view(out@) =~= acc.push(piece@));
        }
        part_i = part_i + 1;
    }
    proof {
        assert(pieces_view(out@) + Seq::<FormatPieceModel>::empty() =~= pieces_view(out@));
    }
    Ok(out)
}

} // verus!
