use bencode_parser::parser::bdict;
use bencode_parser::parser::bencodes;
use bencode_parser::parser::bint;
use bencode_parser::parser::blist;
use bencode_parser::parser::bstring;
use bencode_parser::parser::parse;
use bencode_parser::parser::Bencode;
use bencode_parser::parser::ParseError;

#[test]
fn test_bint() {
    match bint(b"i-132e", 0) {
        Ok((o, _)) => assert_eq!(o, -132),
        _ => assert!(false),
    }
}

#[test]
fn test_bstring() {
    match bstring(b"3:apa", 0) {
        Ok((o, _)) => assert_eq!(o, b"apa"),
        _ => assert!(false),
    }
}

#[test]
fn test_blist() {
    let e = [
        Bencode::BString(b"apa".to_vec()),
        Bencode::BInt(32),
        Bencode::BInt(43),
    ];
    match blist(b"l3:apai32ei43ee", 0) {
        Ok((o, _)) => assert_eq!(o, e),
        _ => assert!(false),
    }
}

#[test]
fn test_bdict() {
    let m = vec![(b"apa".to_vec(), Bencode::BInt(10))];
    match bdict(b"d3:apai10ee", 0) {
        Ok((o, _)) => assert_eq!(o, m),
        _ => assert!(false),
    }
}

#[test]
fn test_bencodes() {
    let e = [Bencode::BString(b"apa".to_vec()), Bencode::BInt(-23)];
    let r = bencodes(b"3:apai-23e", 0);
    match r {
        Ok((o, _)) => assert_eq!(o, e),
        _ => assert!(false),
    }
}

#[test]
fn test_parse_multiple_top_level() {
    let e = vec![Bencode::BString(b"apa".to_vec()), Bencode::BInt(-23)];
    assert_eq!(parse(b"3:apai-23e"), Ok(e));
}

#[test]
fn test_parse_nested_list() {
    let e = vec![Bencode::BList(vec![
        Bencode::BString(b"apa".to_vec()),
        Bencode::BInt(32),
        Bencode::BInt(43),
    ])];
    assert_eq!(parse(b"l3:apai32ei43ee"), Ok(e));
}

#[test]
fn test_parse_dict() {
    let e = vec![Bencode::BDict(vec![(b"apa".to_vec(), Bencode::BInt(10))])];
    assert_eq!(parse(b"d3:apai10ee"), Ok(e));
}

#[test]
fn test_parse_empty_input() {
    assert_eq!(parse(b""), Ok(vec![]));
}

#[test]
fn test_parse_bstring_consumes_exactly() {
    match bstring(b"4:abcdrest", 0) {
        Ok((o, end)) => {
            assert_eq!(o, b"abcd");
            assert_eq!(end, 6);
        }
        _ => assert!(false),
    }
}

#[test]
fn test_truncated_string() {
    assert_eq!(parse(b"5:abc"), Err(ParseError::TruncatedInput));
}

#[test]
fn test_truncated_int() {
    assert_eq!(parse(b"i12"), Err(ParseError::TruncatedInput));
}

#[test]
fn test_truncated_list() {
    assert_eq!(parse(b"l3:apa"), Err(ParseError::TruncatedInput));
}

#[test]
fn test_truncated_dict() {
    assert_eq!(parse(b"d3:apai10e"), Err(ParseError::TruncatedInput));
}

#[test]
fn test_malformed_leading_byte() {
    assert_eq!(parse(b"x5e"), Err(ParseError::MalformedToken));
}

#[test]
fn test_int_empty_digits() {
    assert_eq!(parse(b"ie"), Err(ParseError::MalformedToken));
}

#[test]
fn test_int_minus_zero() {
    assert_eq!(parse(b"i-0e"), Err(ParseError::MalformedToken));
}

#[test]
fn test_int_leading_zero() {
    assert_eq!(parse(b"i03e"), Err(ParseError::MalformedToken));
    assert_eq!(parse(b"i0e"), Ok(vec![Bencode::BInt(0)]));
}

#[test]
fn test_int_non_digit() {
    assert_eq!(parse(b"i1x2e"), Err(ParseError::MalformedToken));
}

#[test]
fn test_int_extremes() {
    assert_eq!(
        parse(b"i9223372036854775807e"),
        Ok(vec![Bencode::BInt(i64::MAX)])
    );
    assert_eq!(
        parse(b"i-9223372036854775808e"),
        Ok(vec![Bencode::BInt(i64::MIN)])
    );
    assert_eq!(
        parse(b"i9223372036854775808e"),
        Err(ParseError::MalformedToken)
    );
    assert_eq!(
        parse(b"i-9223372036854775809e"),
        Err(ParseError::MalformedToken)
    );
}

#[test]
fn test_decode_twice_equal() {
    let buffer = b"d3:apal3:bepi-1eee3:apai7e";
    let first = parse(buffer);
    let second = parse(buffer);
    assert_eq!(first, second);
}

#[test]
fn test_duplicate_keys_last_wins() {
    let e = vec![Bencode::BDict(vec![(b"a".to_vec(), Bencode::BInt(2))])];
    assert_eq!(parse(b"d1:ai1e1:ai2ee"), Ok(e));
}

#[test]
fn test_unsorted_keys_accepted() {
    let e = vec![Bencode::BDict(vec![
        (b"b".to_vec(), Bencode::BInt(1)),
        (b"a".to_vec(), Bencode::BInt(2)),
    ])];
    assert_eq!(parse(b"d1:bi1e1:ai2ee"), Ok(e));
}

#[test]
fn test_dict_key_must_be_string() {
    assert_eq!(parse(b"di1ei2ee"), Err(ParseError::MalformedToken));
}

#[test]
fn test_string_length_leading_zero_tolerated() {
    assert_eq!(
        parse(b"03:apa"),
        Ok(vec![Bencode::BString(b"apa".to_vec())])
    );
}

#[test]
fn test_trailing_garbage_fails() {
    assert_eq!(parse(b"i1e:"), Err(ParseError::MalformedToken));
}

#[test]
fn test_empty_list_and_dict() {
    assert_eq!(
        parse(b"lede"),
        Ok(vec![Bencode::BList(vec![]), Bencode::BDict(vec![])])
    );
}

#[test]
fn test_huge_declared_length_is_truncation() {
    assert_eq!(
        parse(b"99999999999999999999999:a"),
        Err(ParseError::TruncatedInput)
    );
}
