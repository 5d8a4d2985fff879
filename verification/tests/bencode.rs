//! Bencode codec behavior: parsing, strictness, canonical encoding, and
//! the round-trip of parse and encode.

use il_pleut::bencode::{
    bencode_encode, BencodeParser, BencodeValue, ParseError, ParseErrorKind,
};

fn parse_all(data: &[u8]) -> Result<BencodeValue, ParseError> {
    let mut parser = BencodeParser::new(data);
    parser.parse()
}

#[test]
fn test_bencode_string() {
    let mut parser = BencodeParser::new(b"4:spam");
    let result = parser.parse().unwrap();
    assert_eq!(result, BencodeValue::String(b"spam".to_vec()));
}

#[test]
fn test_bencode_integer() {
    let mut parser = BencodeParser::new(b"i42e");
    let result = parser.parse().unwrap();
    assert_eq!(result, BencodeValue::Integer(42));
}

#[test]
fn test_bencode_list() {
    let mut parser = BencodeParser::new(b"l4:spami42ee");
    let result = parser.parse().unwrap();
    assert_eq!(
        result,
        BencodeValue::List(vec![
            BencodeValue::String(b"spam".to_vec()),
            BencodeValue::Integer(42)
        ])
    );
}

#[test]
fn test_bencode_dict() {
    let mut parser = BencodeParser::new(b"d4:spami42ee");
    let result = parser.parse().unwrap();
    let expected = vec![(b"spam".to_vec(), BencodeValue::Integer(42))];
    assert_eq!(result, BencodeValue::Dictionary(expected));
}

#[test]
fn bencode_basics_round_trip() {
    // parse d3:cow3:moo4:spaml1:a1:bee, then re-encode the same bytes
    let data = b"d3:cow3:moo4:spaml1:a1:bee";
    let value = parse_all(data).unwrap();
    assert_eq!(
        value,
        BencodeValue::Dictionary(vec![
            (b"cow".to_vec(), BencodeValue::String(b"moo".to_vec())),
            (
                b"spam".to_vec(),
                BencodeValue::List(vec![
                    BencodeValue::String(b"a".to_vec()),
                    BencodeValue::String(b"b".to_vec()),
                ])
            ),
        ])
    );
    let encoded = bencode_encode(&value);
    assert_eq!(encoded.as_slice(), data.as_slice());
}

#[test]
fn negative_integer_and_minus_zero() {
    assert_eq!(parse_all(b"i-42e").unwrap(), BencodeValue::Integer(-42));
    let err = parse_all(b"i-0e").unwrap_err();
    assert_eq!(err.kind, ParseErrorKind::BadInteger);
}

#[test]
fn integer_strictness() {
    assert_eq!(parse_all(b"i0e").unwrap(), BencodeValue::Integer(0));
    assert_eq!(
        parse_all(b"i9223372036854775807e").unwrap(),
        BencodeValue::Integer(i64::MAX)
    );
    assert_eq!(
        parse_all(b"i-9223372036854775808e").unwrap(),
        BencodeValue::Integer(i64::MIN)
    );
    // leading zero, empty digits, overflow, stray byte
    assert_eq!(parse_all(b"i042e").unwrap_err().kind, ParseErrorKind::BadInteger);
    assert_eq!(parse_all(b"ie").unwrap_err().kind, ParseErrorKind::BadInteger);
    assert_eq!(
        parse_all(b"i9223372036854775808e").unwrap_err().kind,
        ParseErrorKind::BadInteger
    );
    assert_eq!(parse_all(b"i4x2e").unwrap_err().kind, ParseErrorKind::BadInteger);
    assert_eq!(parse_all(b"i42").unwrap_err().kind, ParseErrorKind::Unterminated);
}

#[test]
fn string_strictness() {
    assert_eq!(parse_all(b"0:").unwrap(), BencodeValue::String(Vec::new()));
    let err = parse_all(b"5:spam").unwrap_err();
    assert_eq!(err.kind, ParseErrorKind::UnexpectedEnd);
    assert_eq!(parse_all(b"04:spam").unwrap_err().kind, ParseErrorKind::BadLength);
    assert_eq!(parse_all(b"4spam").unwrap_err().kind, ParseErrorKind::BadLength);
}

#[test]
fn oversized_string_length_is_rejected() {
    // a length far beyond the data, and one beyond 64 bits
    assert_eq!(
        parse_all(b"99999999999999999999:x").unwrap_err().kind,
        ParseErrorKind::UnexpectedEnd
    );
    assert_eq!(parse_all(b"1000000:x").unwrap_err().kind, ParseErrorKind::UnexpectedEnd);
}

#[test]
fn structural_errors_carry_offsets() {
    let err = parse_all(b"").unwrap_err();
    assert_eq!(err.kind, ParseErrorKind::UnexpectedEnd);
    assert_eq!(err.offset, 0);
    let err = parse_all(b"x").unwrap_err();
    assert_eq!(err.kind, ParseErrorKind::BadPrefix);
    assert_eq!(err.offset, 0);
    let err = parse_all(b"l4:spam").unwrap_err();
    assert_eq!(err.kind, ParseErrorKind::Unterminated);
    // a dictionary key with no value runs off the end of the data
    let err = parse_all(b"d4:spam").unwrap_err();
    assert_eq!(err.kind, ParseErrorKind::UnexpectedEnd);
    let err = parse_all(b"di42ei0ee").unwrap_err();
    assert_eq!(err.kind, ParseErrorKind::NonStringKey);
    assert_eq!(err.offset, 1);
}

#[test]
fn encoder_sorts_dictionary_keys() {
    // an unsorted dictionary re-encodes with keys in ascending byte order
    let value = BencodeValue::Dictionary(vec![
        (b"zz".to_vec(), BencodeValue::Integer(1)),
        (b"aa".to_vec(), BencodeValue::Integer(2)),
    ]);
    let encoded = bencode_encode(&value);
    assert_eq!(encoded.as_slice(), b"d2:aai2e2:zzi1ee".as_slice());
}

#[test]
fn reparse_yields_canonical_value() {
    // parse an unsorted dictionary, encode it, and parse the encoding:
    // the result is the same mapping with keys sorted
    let value = parse_all(b"d1:bi2e1:ai1ee").unwrap();
    let encoded = bencode_encode(&value);
    assert_eq!(encoded.as_slice(), b"d1:ai1e1:bi2ee".as_slice());
    let reparsed = parse_all(&encoded).unwrap();
    assert_eq!(
        reparsed,
        BencodeValue::Dictionary(vec![
            (b"a".to_vec(), BencodeValue::Integer(1)),
            (b"b".to_vec(), BencodeValue::Integer(2)),
        ])
    );
    // a canonical stream is unchanged by a parse/encode round trip
    let again = bencode_encode(&reparsed);
    assert_eq!(again, encoded);
}

#[test]
fn nested_structures_round_trip() {
    let data = b"d4:infod6:lengthi81920e4:name4:test12:piece lengthi32768eee";
    let value = parse_all(data).unwrap();
    let encoded = bencode_encode(&value);
    assert_eq!(encoded.as_slice(), data.as_slice());
}

#[test]
fn accessors_expose_values() {
    let value = parse_all(b"d3:key5:helloe").unwrap();
    let dict = value.as_dict().unwrap();
    assert_eq!(dict.len(), 1);
    let inner = il_pleut::bencode::dict_get(dict, b"key").unwrap();
    assert_eq!(inner.as_string().unwrap(), "hello");
    assert_eq!(inner.as_bytes().unwrap().as_slice(), b"hello".as_slice());
    assert!(inner.as_integer().is_none());
    assert!(il_pleut::bencode::dict_get(dict, b"missing").is_none());
}

#[test]
fn as_string_rejects_invalid_utf8() {
    let value = parse_all(b"2:\xff\xfe").unwrap();
    assert!(value.as_bytes().is_some());
    assert!(value.as_string().is_none());
}
