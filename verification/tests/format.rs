//! End-to-end behaviour of the parser and the canonical stringifier on
//! concrete documents, and each error on an input that brings it.

use dtxt::{parse, DTXTError, DTXTObject, DTXTValue, object_index_of, object_insert};

fn value_of<'a>(obj: &'a DTXTObject, key: &str) -> &'a DTXTValue {
    let idx = object_index_of(obj, key.as_bytes()).expect("key should be present");
    &obj[idx].1
}

#[test]
fn test_simple_object() {
    let input = "{name: `John`, age: 30}";
    let result = parse(input).unwrap();
    assert_eq!(result.len(), 2);
}

#[test]
fn test_array() {
    let input = "{items: [1, 2, 3]}";
    let result = parse(input).unwrap();
    if let Some(DTXTValue::Array(arr)) = object_index_of(&result, b"items").map(|i| &result[i].1) {
        assert_eq!(arr.len(), 3);
    } else {
        panic!("Expected array");
    }
}

#[test]
fn last_occurrence_of_a_key_wins() {
    let result = parse("{a:1,a:2}").unwrap();
    assert_eq!(result.len(), 1);
    assert_eq!(result, parse("{a:2}").unwrap());
    assert_eq!(value_of(&result, "a"), &DTXTValue::Number(b"2.0".to_vec()));
}

#[test]
fn trailing_commas_are_tolerated() {
    assert_eq!(parse("{a:1,}").unwrap(), parse("{a:1}").unwrap());
    assert_eq!(parse("{x:[1,2,]}").unwrap(), parse("{x:[1,2]}").unwrap());
    // The comma between members is itself optional: the member loop only
    // consumes one when it is there.
    assert_eq!(parse("{a:1 b:2}").unwrap(), parse("{a:1,b:2}").unwrap());
}

#[test]
fn compact_emission_is_exact() {
    let tree = parse("{b:BN(-5),a:`x`,c:B(0a),d:D(now),e:[T]}").unwrap();
    let out = dtxt::stringify(&DTXTValue::Object(tree), None);
    assert_eq!(out, b"{a:`x`,b:BN(-5),c:B(0A),d:D(now),e:[T]}".to_vec());
}

#[test]
fn keys_are_emitted_sorted() {
    let mut obj: DTXTObject = Vec::new();
    object_insert(&mut obj, b"z".to_vec(), DTXTValue::Bool(true));
    object_insert(&mut obj, b"a".to_vec(), DTXTValue::Bool(true));
    object_insert(&mut obj, b"m".to_vec(), DTXTValue::Bool(true));
    let v = DTXTValue::Object(obj);
    assert_eq!(dtxt::stringify(&v, None), b"{a:T,m:T,z:T}".to_vec());
    assert_eq!(
        dtxt::stringify(&v, Some("  ")),
        b"{\n  a: T,\n  m: T,\n  z: T,\n}".to_vec()
    );
}

#[test]
fn bigint_boundaries() {
    let result = parse("{a:BN(9223372036854775807)}").unwrap();
    assert_eq!(value_of(&result, "a"), &DTXTValue::BigInt(i64::MAX));
    let result = parse("{a:BN(-9223372036854775808)}").unwrap();
    assert_eq!(value_of(&result, "a"), &DTXTValue::BigInt(i64::MIN));
    assert_eq!(
        parse("{a:BN(99999999999999999999)}"),
        Err(DTXTError::InvalidConstructor(
            b"BN(99999999999999999999)".to_vec()
        ))
    );
}

#[test]
fn bytes_boundaries() {
    let result = parse("{a:B(1A2B)}").unwrap();
    assert_eq!(value_of(&result, "a"), &DTXTValue::Bytes(vec![0x1A, 0x2B]));
    assert_eq!(
        parse("{a:B(1A2)}"),
        Err(DTXTError::InvalidConstructor(b"B(1A2)".to_vec()))
    );
    let result = parse("{a:B()}").unwrap();
    assert_eq!(value_of(&result, "a"), &DTXTValue::Bytes(Vec::new()));
    let result = parse("{a:B(00ff)}").unwrap();
    assert_eq!(value_of(&result, "a"), &DTXTValue::Bytes(vec![0x00, 0xFF]));
}

#[test]
fn literal_versus_constructor() {
    let result = parse("{a:T}").unwrap();
    assert_eq!(value_of(&result, "a"), &DTXTValue::Bool(true));
    let result = parse("{a:F}").unwrap();
    assert_eq!(value_of(&result, "a"), &DTXTValue::Bool(false));
    let result = parse("{a:N}").unwrap();
    assert_eq!(value_of(&result, "a"), &DTXTValue::Null);
    assert_eq!(
        parse("{a:T(1)}"),
        Err(DTXTError::InvalidConstructor(b"T".to_vec()))
    );
    assert_eq!(
        parse("{a:X(1)}"),
        Err(DTXTError::InvalidConstructor(b"X".to_vec()))
    );
}

#[test]
fn comments_are_skipped() {
    assert_eq!(parse("{ // comment\n a: 1 }").unwrap(), parse("{a:1}").unwrap());
    assert_eq!(parse("{a:1} // to the end").unwrap(), parse("{a:1}").unwrap());
}

#[test]
fn trailing_data_is_reported_at_its_position() {
    assert_eq!(parse("{a:1} garbage"), Err(DTXTError::TrailingData(6)));
}

#[test]
fn number_bit_patterns_round_trip() {
    let samples: [f64; 5] = [0.0, -0.0, 1e300, 0.1, -123.456];
    for d in samples {
        let mut buffer = ryu::Buffer::new();
        let text = buffer.format_finite(d).as_bytes().to_vec();
        let v = DTXTValue::Number(text);
        let mut doc = b"{x:".to_vec();
        doc.extend_from_slice(&dtxt::stringify(&v, None));
        doc.push(b'}');
        let back = parse(std::str::from_utf8(&doc).unwrap()).unwrap();
        let DTXTValue::Number(t2) = value_of(&back, "x") else {
            panic!("Expected number");
        };
        let reparsed: f64 = std::str::from_utf8(t2).unwrap().parse().unwrap();
        assert_eq!(reparsed.to_bits(), d.to_bits());
    }
}

#[test]
fn documents_round_trip_in_both_modes() {
    let input = "{a:1.5,b:[T,F,N],c:{d:`hi`},e:D(2024-01-01T10:00),f:BN(-5),g:B(00FF),h:[],i:{}}";
    let compact = dtxt::stringify(&DTXTValue::Object(parse(input).unwrap()), None);
    let compact_str = String::from_utf8(compact.clone()).unwrap();
    // Parsing the canonical text gives the same tree back,
    let reparsed = parse(&compact_str).unwrap();
    assert_eq!(reparsed, parse(input).unwrap());
    // and printing it again gives the same bytes: canonicalization is idempotent.
    let compact_again = dtxt::stringify(&DTXTValue::Object(reparsed), None);
    assert_eq!(compact, compact_again);
    // The indented text parses back to the same tree too.
    let indented = dtxt::stringify(&DTXTValue::Object(parse(input).unwrap()), Some("  "));
    let from_indented = parse(std::str::from_utf8(&indented).unwrap()).unwrap();
    assert_eq!(from_indented, parse(input).unwrap());
}

#[test]
fn numbers_are_canonicalized() {
    // 1e2 denotes the double 100.0; its canonical text is `100.0`.
    let tree = parse("{a:1e2}").unwrap();
    let out = dtxt::stringify(&DTXTValue::Object(tree), None);
    assert_eq!(out, b"{a:100.0}".to_vec());
}

#[test]
fn out_of_range_numbers_are_rejected() {
    assert_eq!(parse("{a:1e999}"), Err(DTXTError::InvalidNumber(b"1e999".to_vec())));
}

#[test]
fn malformed_numbers_are_rejected() {
    assert_eq!(parse("{a:1e}"), Err(DTXTError::InvalidNumber(b"1e".to_vec())));
    assert_eq!(parse("{a:-}"), Err(DTXTError::InvalidNumber(b"-".to_vec())));
    assert_eq!(parse("{a:1.}"), Err(DTXTError::InvalidNumber(b"1.".to_vec())));
}

#[test]
fn unexpected_characters_are_reported() {
    assert_eq!(parse("{a:%}"), Err(DTXTError::UnexpectedChar(3, '%')));
    assert_eq!(parse("{a 1}"), Err(DTXTError::UnexpectedChar(3, '1')));
    assert_eq!(parse("x"), Err(DTXTError::UnexpectedChar(0, 'x')));
}

#[test]
fn truncated_input_is_unexpected_eof() {
    assert_eq!(parse("{"), Err(DTXTError::UnexpectedEOF));
    assert_eq!(parse("{a:`unterminated"), Err(DTXTError::UnexpectedEOF));
    assert_eq!(parse("{a:D(unterminated"), Err(DTXTError::UnexpectedEOF));
    assert_eq!(parse("{a:[1,2"), Err(DTXTError::UnexpectedEOF));
    assert_eq!(parse(""), Err(DTXTError::UnexpectedEOF));
}

#[test]
fn empty_keys_and_containers_parse() {
    let result = parse("{:1}").unwrap();
    assert_eq!(result.len(), 1);
    assert_eq!(result[0].0, b"".to_vec());
    assert_eq!(parse("{}").unwrap().len(), 0);
    let out = dtxt::stringify(&DTXTValue::Object(Vec::new()), None);
    assert_eq!(out, b"{}".to_vec());
}

#[test]
fn dates_are_stored_verbatim() {
    let result = parse("{a:D(2024-01-01T10:00:00Z)}").unwrap();
    assert_eq!(
        value_of(&result, "a"),
        &DTXTValue::Date(b"2024-01-01T10:00:00Z".to_vec())
    );
}

#[test]
fn bn_sign_and_leading_zeros_follow_decimal_reading() {
    let result = parse("{a:BN(+5)}").unwrap();
    assert_eq!(value_of(&result, "a"), &DTXTValue::BigInt(5));
    let result = parse("{a:BN(007)}").unwrap();
    assert_eq!(value_of(&result, "a"), &DTXTValue::BigInt(7));
    assert_eq!(
        parse("{a:BN()}"),
        Err(DTXTError::InvalidConstructor(b"BN()".to_vec()))
    );
    assert_eq!(
        parse("{a:BN(1.5)}"),
        Err(DTXTError::InvalidConstructor(b"BN(1.5)".to_vec()))
    );
}

#[test]
fn error_messages_read_as_diagnostics() {
    let e = parse("{a:1} garbage").unwrap_err();
    assert_eq!(e.message(), b"Trailing data at position 6".to_vec());
    let e = parse("{a:%}").unwrap_err();
    assert_eq!(e.message(), b"Unexpected char at 3: %".to_vec());
    let e = parse("{").unwrap_err();
    assert_eq!(e.message(), b"Unexpected end of file".to_vec());
}

#[test]
fn parser_type_drives_the_same_grammar() {
    let mut p = dtxt::DTXTParser::new("{name: `John`, age: 30}");
    let result = p.parse().unwrap();
    assert_eq!(result.len(), 2);
}
