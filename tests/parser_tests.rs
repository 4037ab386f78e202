use edf_reader::decimal::Decimal;
use edf_reader::error::EdfError;
use edf_reader::get_sample;
use edf_reader::parser::Parser;

fn get_parser(string: &str) -> Parser {
    Parser::new(String::from(string).into_bytes())
}

#[test]
fn parse() {
    let mut parser = get_parser("12345678");
    assert_eq!("1234", parser.parse_string(4).unwrap());
    assert_eq!(5678, parser.parse_number::<usize>(4).unwrap());

    assert_eq!(8, parser.offset);
}

#[test]
fn parse_reports_missing_data() {
    let mut parser = get_parser("1234");
    assert_eq!(Err(EdfError::OutOfData), parser.parse_string(5));
    assert_eq!(0, parser.offset);
}

#[test]
fn parse_reports_malformed_integer() {
    let mut parser = get_parser("hello");
    assert_eq!(Err(EdfError::MalformedNumber), parser.parse_number::<usize>(4));
}

#[test]
fn parse_trims_surrounding_blanks() {
    let mut parser = get_parser("  ab c \t|x");
    assert_eq!("ab c", parser.parse_string(8).unwrap());
    assert_eq!("|x", parser.parse_string(2).unwrap());
    assert_eq!("", get_parser("    ").parse_string(4).unwrap());
}

#[test]
fn parse_rejects_invalid_utf8() {
    let mut parser = Parser::new(vec![0x41, 0xff, 0x20]);
    assert_eq!(Err(EdfError::MalformedText), parser.parse_string(3));
    assert_eq!(3, parser.offset);
}

#[test]
fn parse_signed_and_unsigned() {
    let mut parser = get_parser("-32768  +12     -0      ");
    assert_eq!(-32768i64, parser.parse_number::<i64>(8).unwrap());
    assert_eq!(12u64, parser.parse_number::<u64>(8).unwrap());
    assert_eq!(0i64, parser.parse_number::<i64>(8).unwrap());
    assert_eq!(Err(EdfError::MalformedNumber), get_parser("-1").parse_number::<u64>(2));
    assert_eq!(Err(EdfError::MalformedNumber), get_parser("+").parse_number::<u64>(1));
    assert_eq!(Err(EdfError::MalformedNumber), get_parser("1 2").parse_number::<u64>(3));
    assert_eq!(
        Err(EdfError::MalformedNumber),
        get_parser("18446744073709551616").parse_number::<u64>(20)
    );
    assert_eq!(
        18446744073709551615u64,
        get_parser("18446744073709551615").parse_number::<u64>(20).unwrap()
    );
    assert_eq!(
        i64::MIN,
        get_parser("-9223372036854775808").parse_number::<i64>(20).unwrap()
    );
}

#[test]
fn parse_decimals() {
    let mut parser = get_parser("-3200.5 100     .25     7.      ");
    assert_eq!(Decimal { mantissa: -32005, scale: 1 }, parser.parse_number::<Decimal>(8).unwrap());
    assert_eq!(Decimal { mantissa: 100, scale: 0 }, parser.parse_number::<Decimal>(8).unwrap());
    assert_eq!(Decimal { mantissa: 25, scale: 2 }, parser.parse_number::<Decimal>(8).unwrap());
    assert_eq!(Decimal { mantissa: 7, scale: 0 }, parser.parse_number::<Decimal>(8).unwrap());
    assert_eq!(Err(EdfError::MalformedNumber), get_parser(".").parse_number::<Decimal>(1));
    assert_eq!(Err(EdfError::MalformedNumber), get_parser("1.2.3").parse_number::<Decimal>(5));
    assert_eq!(Err(EdfError::MalformedNumber), get_parser("1e3").parse_number::<Decimal>(3));
}

#[test]
fn parse_lists_keep_field_order() {
    let mut parser = get_parser("ab  cd  ef  1   22  333 ");
    assert_eq!(
        vec![String::from("ab"), String::from("cd"), String::from("ef")],
        parser.parse_string_list(3, 4).unwrap()
    );
    assert_eq!(vec![1u64, 22, 333], parser.parse_number_list::<u64>(3, 4).unwrap());
    assert_eq!(24, parser.offset);
    let mut short = get_parser("1   2   ");
    assert_eq!(Err(EdfError::OutOfData), short.parse_number_list::<u64>(3, 4));
    assert_eq!(0, short.offset);
    let mut bad = get_parser("1   x   3   ");
    assert_eq!(Err(EdfError::MalformedNumber), bad.parse_number_list::<u64>(3, 4));
}

#[test]
fn move_offset_skips_bytes() {
    let mut parser = get_parser("skip1234");
    assert_eq!(1234u64, parser.move_offset(4).parse_number::<u64>(4).unwrap());
}

#[test]
fn convert_byte_array_to_u16() {
    assert_eq!(456, get_sample(&vec![200, 1], 0));
    assert_eq!(-4564, get_sample(&vec![44, 238], 0));
}

#[test]
fn get_sample_reads_by_index() {
    let data = vec![0, 0, 255, 127, 0, 128, 255, 255];
    assert_eq!(0, get_sample(&data, 0));
    assert_eq!(32767, get_sample(&data, 1));
    assert_eq!(-32768, get_sample(&data, 2));
    assert_eq!(-1, get_sample(&data, 3));
}

#[test]
fn parse_trims_unicode_whitespace() {
    let mut parser = Parser::new(vec![0xC2, 0xA0, 0x41, 0xE3, 0x80, 0x80]);
    assert_eq!("A", parser.parse_string(6).unwrap());
    let mut number = Parser::new(vec![0xC2, 0xA0, 0x35, 0x20]);
    assert_eq!(5u64, number.parse_number::<u64>(4).unwrap());
    let mut inner = Parser::new(vec![0x41, 0xC2, 0xA0, 0x42]);
    assert_eq!("A\u{a0}B", inner.parse_string(4).unwrap());
    let mut list = Parser::new(vec![0xC2, 0x85, 0x37, 0x20, 0x38, 0x20, 0x20, 0x20]);
    assert_eq!(vec![7i64, 8], list.parse_number_list::<i64>(2, 4).unwrap());
}
