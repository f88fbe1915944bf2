use mandelbrot::text::{field_spans, parse_unsigned, NumberError, Span};

fn fields(text: &str) -> Vec<String> {
    let bytes = text.as_bytes();
    let mut out: Vec<String> = Vec::new();
    for span in field_spans(bytes) {
        out.push(String::from_utf8(bytes[span.start..span.end].to_vec()).unwrap());
    }
    out
}

fn number(text: &str, max: u64) -> Result<u64, NumberError> {
    parse_unsigned(text.as_bytes(), Span { start: 0, end: text.len() }, max)
}

#[test]
fn text_without_comma_is_one_field() {
    assert_eq!(fields("abc"), vec!["abc"]);
    assert_eq!(fields(""), vec![""]);
    assert_eq!(fields("?"), vec!["?"]);
}

#[test]
fn commas_part_the_fields() {
    assert_eq!(fields("-1,-2,3,2"), vec!["-1", "-2", "3", "2"]);
    assert_eq!(fields("900,600"), vec!["900", "600"]);
}

#[test]
fn empty_fields_are_kept() {
    assert_eq!(fields(","), vec!["", ""]);
    assert_eq!(fields("a,,b"), vec!["a", "", "b"]);
    assert_eq!(fields(",a,"), vec!["", "a", ""]);
    assert_eq!(fields(",,,"), vec!["", "", "", ""]);
}

#[test]
fn spans_give_the_places() {
    assert_eq!(
        field_spans("12,3,,45".as_bytes()),
        vec![
            Span { start: 0, end: 2 },
            Span { start: 3, end: 4 },
            Span { start: 5, end: 5 },
            Span { start: 6, end: 8 },
        ]
    );
}

#[test]
fn bytes_of_longer_characters_stay_in_their_field() {
    assert_eq!(fields("é,ü"), vec!["é", "ü"]);
}

#[test]
fn same_fields_as_the_standard_split() {
    for text in ["", ",", "1,2", "a,b,c,", ",,x", "no comma", "1, 2 ,3"] {
        let expected: Vec<String> = text.split(',').map(|f| f.to_string()).collect();
        assert_eq!(fields(text), expected);
    }
}

#[test]
fn digits_are_read_in_base_ten() {
    assert_eq!(number("0", 100), Ok(0));
    assert_eq!(number("7", 100), Ok(7));
    assert_eq!(number("100", 100), Ok(100));
    assert_eq!(number("18446744073709551615", u64::MAX), Ok(u64::MAX));
}

#[test]
fn leading_zeros_and_a_plus_are_allowed() {
    assert_eq!(number("007", 100), Ok(7));
    assert_eq!(number("+7", 100), Ok(7));
    assert_eq!(number("+007", 100), Ok(7));
    assert_eq!(number("0000000000000000000000000000000000001", 1), Ok(1));
}

#[test]
fn what_is_no_number_is_malformed() {
    assert_eq!(number("", 100), Err(NumberError::Malformed));
    assert_eq!(number("+", 100), Err(NumberError::Malformed));
    assert_eq!(number("-7", 100), Err(NumberError::Malformed));
    assert_eq!(number("++7", 100), Err(NumberError::Malformed));
    assert_eq!(number("7+", 100), Err(NumberError::Malformed));
    assert_eq!(number(" 7", 100), Err(NumberError::Malformed));
    assert_eq!(number("7 ", 100), Err(NumberError::Malformed));
    assert_eq!(number("7.0", 100), Err(NumberError::Malformed));
    assert_eq!(number("1_000", 100), Err(NumberError::Malformed));
    assert_eq!(number("0x10", 100), Err(NumberError::Malformed));
    assert_eq!(number("12a", 100), Err(NumberError::Malformed));
    assert_eq!(number("/", 100), Err(NumberError::Malformed));
    assert_eq!(number(":", 100), Err(NumberError::Malformed));
    assert_eq!(number("٣", 100), Err(NumberError::Malformed));
}

#[test]
fn numbers_above_the_limit_are_too_large() {
    assert_eq!(number("101", 100), Err(NumberError::TooLarge));
    assert_eq!(number("18446744073709551616", u64::MAX), Err(NumberError::TooLarge));
    assert_eq!(number("99999999999999999999999999", u64::MAX), Err(NumberError::TooLarge));
    assert_eq!(number("1", 0), Err(NumberError::TooLarge));
    assert_eq!(number("0", 0), Ok(0));
}

#[test]
fn a_bad_byte_after_too_many_digits_is_still_malformed() {
    assert_eq!(number("99999999999999999999999999x", u64::MAX), Err(NumberError::Malformed));
    assert_eq!(number("101,", 100), Err(NumberError::Malformed));
}

#[test]
fn only_the_span_is_read() {
    let text = "ab123cd".as_bytes();
    assert_eq!(parse_unsigned(text, Span { start: 2, end: 5 }, 1000), Ok(123));
    assert_eq!(parse_unsigned(text, Span { start: 2, end: 6 }, 1000), Err(NumberError::Malformed));
    assert_eq!(parse_unsigned(text, Span { start: 3, end: 3 }, 1000), Err(NumberError::Malformed));
    assert_eq!(parse_unsigned(text, Span { start: 4, end: 5 }, 1000), Ok(3));
}

#[test]
fn same_numbers_as_the_standard_parser() {
    for text in ["0", "1", "+1", "-1", "", "+", "4294967295", "4294967296", "00042", "4 2", "1e3"] {
        let expected: Option<u64> = text.parse::<u32>().ok().map(|v| v as u64);
        assert_eq!(number(text, u32::MAX as u64).ok(), expected);
    }
}
