use rsjsonnet_lang::error::EvalErrorKind;
use rsjsonnet_lang::format::{
    decimal_text, decorate_digits, parse_format_codes, render_hex, render_int, CFlags, ConvType, FieldWidth,
    FormatPart, LenMod,
};

fn message(e: EvalErrorKind) -> String {
    match e {
        EvalErrorKind::Other { span: None, message } => message,
        other => panic!("unexpected error {other:?}"),
    }
}

fn no_flags() -> CFlags {
    CFlags { alt: false, zero: false, left: false, blank: false, plus: false }
}

#[test]
fn splits_literals_and_codes() {
    let parts = parse_format_codes("a%(k)#05.3lfb%%").unwrap();
    assert_eq!(parts.len(), 4);
    match &parts[0] {
        FormatPart::Literal(s) => assert_eq!(s, "a"),
        other => panic!("unexpected {other:?}"),
    }
    match &parts[1] {
        FormatPart::Code(c) => {
            assert_eq!(c.mkey.as_deref(), Some("k"));
            assert_eq!(c.cflags, CFlags { alt: true, zero: true, left: false, blank: false, plus: false });
            assert_eq!(c.fw, Some(FieldWidth::Inline(5)));
            assert_eq!(c.prec, Some(FieldWidth::Inline(3)));
            assert_eq!(c.len_mod, Some(LenMod::LowerL));
            assert_eq!(c.ctype, ConvType::FloatLower);
            assert!(c.uses_prec());
        }
        other => panic!("unexpected {other:?}"),
    }
    match &parts[2] {
        FormatPart::Literal(s) => assert_eq!(s, "b"),
        other => panic!("unexpected {other:?}"),
    }
    match &parts[3] {
        FormatPart::Code(c) => {
            assert_eq!(c.mkey, None);
            assert_eq!(c.cflags, no_flags());
            assert_eq!(c.ctype, ConvType::Percent);
        }
        other => panic!("unexpected {other:?}"),
    }
}

#[test]
fn reads_every_conversion() {
    let parts = parse_format_codes("%d%i%u%o%x%X%e%E%f%F%g%G%c%s%*.*Ld% -+hd").unwrap();
    let types: Vec<ConvType> = parts
        .iter()
        .map(|p| match p {
            FormatPart::Code(c) => c.ctype,
            FormatPart::Literal(_) => panic!("no literal expected"),
        })
        .collect();
    assert_eq!(
        types,
        vec![
            ConvType::Decimal,
            ConvType::Decimal,
            ConvType::Decimal,
            ConvType::Octal,
            ConvType::HexLower,
            ConvType::HexUpper,
            ConvType::ExpLower,
            ConvType::ExpUpper,
            ConvType::FloatLower,
            ConvType::FloatUpper,
            ConvType::FloatGLower,
            ConvType::FloatGUpper,
            ConvType::Char,
            ConvType::String,
            ConvType::Decimal,
            ConvType::Decimal,
        ]
    );
    match &parts[14] {
        FormatPart::Code(c) => {
            assert_eq!(c.fw, Some(FieldWidth::External));
            assert_eq!(c.prec, Some(FieldWidth::External));
            assert_eq!(c.len_mod, Some(LenMod::UpperL));
        }
        other => panic!("unexpected {other:?}"),
    }
    match &parts[15] {
        FormatPart::Code(c) => {
            assert_eq!(c.cflags, CFlags { alt: false, zero: false, left: true, blank: true, plus: true });
            assert_eq!(c.len_mod, Some(LenMod::H));
            assert_eq!(c.fw, None);
        }
        other => panic!("unexpected {other:?}"),
    }
}

#[test]
fn plain_text_is_one_literal() {
    let parts = parse_format_codes("no codes here").unwrap();
    assert_eq!(parts.len(), 1);
    assert!(matches!(&parts[0], FormatPart::Literal(s) if s == "no codes here"));
    assert!(parse_format_codes("").unwrap().is_empty());
}

#[test]
fn format_errors() {
    assert_eq!(message(parse_format_codes("abc%").unwrap_err()), "truncated format code");
    assert_eq!(message(parse_format_codes("%(abc").unwrap_err()), "truncated format code");
    assert_eq!(message(parse_format_codes("%5.").unwrap_err()), "truncated format code");
    assert_eq!(message(parse_format_codes("%.x").unwrap_err()), "missing format precision digits");
    assert_eq!(message(parse_format_codes("%y").unwrap_err()), "invalid format conversion code 'y'");
    assert_eq!(message(parse_format_codes("%99999999999d").unwrap_err()), "format field width is too large");
    assert_eq!(message(parse_format_codes("%.99999999999d").unwrap_err()), "format precision is too large");
    assert_eq!(message(parse_format_codes("%4294967296d").unwrap_err()), "format field width is too large");
}

#[test]
fn widest_width_is_accepted() {
    let parts = parse_format_codes("%4294967295d").unwrap();
    assert!(matches!(&parts[0], FormatPart::Code(c) if c.fw == Some(FieldWidth::Inline(4294967295))));
}

#[test]
fn integers_with_sign_prefix_and_padding() {
    assert_eq!(render_int(false, 8, 0, 0, false, false, 8, "0"), "010");
    assert_eq!(render_int(true, 42, 6, 0, false, false, 10, ""), "-00042");
    assert_eq!(render_int(false, 42, 0, 5, false, true, 10, ""), "+00042");
    assert_eq!(render_int(false, 0, 3, 0, true, false, 10, "0"), " 00");
    assert_eq!(render_int(false, 0, 0, 0, false, false, 8, "0"), "0");
    assert_eq!(render_int(false, 5, 0, 0, false, false, 2, ""), "101");
    assert_eq!(render_int(false, u128::MAX, 0, 0, false, false, 10, ""), u128::MAX.to_string());
}

#[test]
fn hex_with_prefix_and_padding() {
    assert_eq!(render_hex(false, 255, 0, 0, false, false, true, false), "0xff");
    assert_eq!(render_hex(true, 255, 8, 0, false, false, true, true), "-0X000FF");
    assert_eq!(render_hex(false, 0, 0, 3, false, false, false, false), "000");
    assert_eq!(render_hex(false, 48879, 0, 0, true, false, false, true), " BEEF");
}

#[test]
fn decorated_digits() {
    assert_eq!(decorate_digits("3.14", true, 7, 0, false, false), "-003.14");
    assert_eq!(decorate_digits("12", false, 0, 4, true, false), "+0012");
    assert_eq!(decorate_digits("7", false, 3, 0, false, true), " 07");
    assert_eq!(decorate_digits("é", false, 3, 0, false, false), "0é");
}

#[test]
fn decimal_numbers() {
    assert_eq!(decimal_text(0), "0");
    assert_eq!(decimal_text(1234567890), "1234567890");
    assert_eq!(decimal_text(u128::MAX), "340282366920938463463374607431768211455");
}
