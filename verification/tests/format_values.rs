use rsjsonnet_lang::error::EvalErrorKind;
use rsjsonnet_lang::format::{parse_format_codes, ConvType};
use rsjsonnet_lang::formatting::{
    format_array, format_object, pad_field, try_format_array, FormatArg, FormatPiece,
};
use rsjsonnet_lang::value::Value;

fn st(t: &str) -> FormatArg {
    FormatArg { value: Value::String(t.to_string()), as_u32: None }
}

fn num(t: &str, as_u32: Option<u32>) -> FormatArg {
    FormatArg { value: Value::Number(t.to_string()), as_u32 }
}

fn show(pieces: &[FormatPiece]) -> String {
    let mut out = String::new();
    for p in pieces {
        match p {
            FormatPiece::Text(t) => out.push_str(t),
            FormatPiece::Number(n) => out.push_str(&format!(
                "<{} {:?} zp={} ip={} fp={} w={} left={}>",
                n.number, n.ctype, n.zero_pad, n.int_prec, n.float_prec, n.width, n.cflags.left
            )),
        }
    }
    out
}

fn message(e: EvalErrorKind) -> String {
    match e {
        EvalErrorKind::Other { message, .. } => message,
        other => panic!("unexpected {other:?}"),
    }
}

fn array(fmt: &str, args: Vec<FormatArg>) -> Result<String, String> {
    let parts = parse_format_codes(fmt).unwrap();
    match try_format_array(&parts, &args) {
        Some(Ok(p)) => Ok(show(&p)),
        Some(Err(e)) => Err(message(e)),
        None => Err("<past the end>".to_string()),
    }
}

fn object(fmt: &str, fields: Vec<(&str, FormatArg)>) -> Result<String, String> {
    let parts = parse_format_codes(fmt).unwrap();
    let fields: Vec<(String, FormatArg)> = fields.into_iter().map(|(k, v)| (k.to_string(), v)).collect();
    format_object(&parts, &fields).map(|p| show(&p)).map_err(message)
}

#[test]
fn strings_and_percent_are_laid_out_in_their_fields() {
    assert_eq!(array("%5s|%-5s|%%|%3%|%c", vec![st("ab"), st("cd"), st("A")]), Ok("   ab|cd   |%|  %|A".to_string()));
}

#[test]
fn non_strings_are_written_as_json_by_s() {
    let v = FormatArg {
        value: Value::Array(vec![Value::Number("1".to_string()), Value::Null]),
        as_u32: None,
    };
    assert_eq!(array("[%s]", vec![v]), Ok("[[1, null]]".to_string()));
}

#[test]
fn numbers_are_left_to_their_renderer() {
    assert_eq!(
        array("%05d items, %.3f and %-8x", vec![num("3", Some(3)), num("2.5", None), num("255", Some(255))]),
        Ok("<3 Decimal zp=5 ip=0 fp=6 w=5 left=false> items, <2.5 FloatLower zp=0 ip=3 fp=3 w=0 left=false> and <255 HexLower zp=0 ip=0 fp=6 w=8 left=true>".to_string())
    );
}

#[test]
fn star_takes_width_then_precision_from_the_values() {
    assert_eq!(
        array("%*.*e", vec![num("7", Some(7)), num("2", Some(2)), num("1.5", None)]),
        Ok("<1.5 ExpLower zp=0 ip=2 fp=2 w=7 left=false>".to_string())
    );
    assert_eq!(array("%*s|", vec![num("4", Some(4)), st("x")]), Ok("   x|".to_string()));
}

#[test]
fn wrong_values_for_codes_are_errors() {
    assert_eq!(array("%d", vec![st("x")]), Err("'i' / 'd' formatting requires a number, got string".to_string()));
    assert_eq!(array("%o", vec![st("x")]), Err("'o' formatting requires a number, got string".to_string()));
    assert_eq!(
        array("%g", vec![FormatArg { value: Value::Null, as_u32: None }]),
        Err("'g' / 'G' formatting requires a number, got null".to_string())
    );
    assert_eq!(array("%c", vec![st("ab")]), Err("'c' formatting requires a string of length 1, got 2".to_string()));
    assert_eq!(
        array("%c", vec![FormatArg { value: Value::Bool(true), as_u32: None }]),
        Err("'c' formatting requires a string or a number, got boolean".to_string())
    );
    assert_eq!(array("%c", vec![num("65", Some(65))]), Ok("A".to_string()));
    assert_eq!(
        array("%c", vec![num("1114112", Some(0x110000))]),
        Err("1114112 is not a valid unicode codepoint".to_string())
    );
    assert_eq!(array("%c", vec![num("-1", None)]), Err("-1 is not a valid unicode codepoint".to_string()));
}

#[test]
fn counts_of_values_are_checked() {
    assert_eq!(array("%s", vec![st("a"), st("b")]), Err("too many array items for format: expected 1, got 2".to_string()));
    assert_eq!(array("%*d", vec![]), Err("not enough array items for format, got 0".to_string()));
    assert_eq!(array("%.*d", vec![]), Err("not enough array items for format, got 0".to_string()));
    assert_eq!(array("%d", vec![]), Err("<past the end>".to_string()));
}

#[test]
fn widths_and_precisions_from_values_are_checked() {
    assert_eq!(array("%*d", vec![st("w"), num("1", Some(1))]), Err("format field width must be a number, got string".to_string()));
    assert_eq!(array("%*d", vec![num("-1", None), num("1", Some(1))]), Err("invalid format field width value: -1".to_string()));
    assert_eq!(
        array("%.*f", vec![num("0.5", None), num("1", Some(1))]),
        Err("invalid format precision value: 0.5".to_string())
    );
    // the precision is checked before the width
    assert_eq!(
        array("%*.*f", vec![st("w"), st("p"), num("1", Some(1))]),
        Err("format precision must be a number, got string".to_string())
    );
    // a string conversion takes a `*` precision but does not read it
    assert_eq!(array("%.*s", vec![st("p"), st("x")]), Ok("x".to_string()));
}

#[test]
fn the_array_function_agrees_where_values_suffice() {
    let parts = parse_format_codes("%s-%s").unwrap();
    let pieces = format_array(&parts, &[st("a"), st("b")]).unwrap();
    assert_eq!(show(&pieces), "a-b");
}

#[test]
fn objects_give_values_by_mapping_key() {
    assert_eq!(
        object("%(a)s and %(b)05d %%", vec![("a", st("x")), ("b", num("7", Some(7)))]),
        Ok("x and <7 Decimal zp=5 ip=0 fp=6 w=5 left=false> %".to_string())
    );
    assert_eq!(object("%(z)s", vec![("a", st("x"))]), Err("missing field \"z\" in object formatting".to_string()));
    assert_eq!(object("%s", vec![("a", st("x"))]), Err("mapping keys are required with object formatting".to_string()));
    assert_eq!(object("%*s", vec![]), Err("'*' field width cannot be used with object formatting".to_string()));
    assert_eq!(object("%.*s", vec![]), Err("'*' precision cannot be used with object formatting".to_string()));
    assert_eq!(object("%(a)-3c|", vec![("a", st("q"))]), Ok("q  |".to_string()));
}

#[test]
fn fields_are_filled_by_characters_where_short_in_bytes() {
    assert_eq!(pad_field("é", 2, false), "é");
    assert_eq!(pad_field("é", 3, false), "  é");
    assert_eq!(pad_field("ab", 4, true), "ab  ");
    assert_eq!(pad_field("abcd", 2, true), "abcd");
    let _ = ConvType::Decimal;
}
