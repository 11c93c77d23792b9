use bencode_parser::parser::parse;
use bencode_parser::parser::Bencode;
use bencode_parser::printer::indent;
use bencode_parser::printer::pp_bencode;
use bencode_parser::printer::pp_bencodes;
use bencode_parser::printer::pp_bstring;
use bencode_parser::printer::pp_dict;

#[test]
fn test_indent_width() {
    assert_eq!(indent(0), "");
    assert_eq!(indent(3), "   ");
}

#[test]
fn test_pp_int() {
    assert_eq!(pp_bencodes(&vec![Bencode::BInt(5)], 0), "[\n 5\n]\n");
}

#[test]
fn test_pp_negative_int() {
    assert_eq!(pp_bencodes(&vec![Bencode::BInt(-7)], 0), "[\n -7\n]\n");
}

#[test]
fn test_pp_int_extremes() {
    assert_eq!(
        pp_bencode(&Bencode::BInt(i64::MAX), 0),
        "9223372036854775807\n"
    );
    assert_eq!(
        pp_bencode(&Bencode::BInt(i64::MIN), 0),
        "-9223372036854775808\n"
    );
}

#[test]
fn test_pp_string_utf8() {
    assert_eq!(
        pp_bstring(&b"apa".to_vec(), 2),
        "  apa\n"
    );
}

#[test]
fn test_pp_string_multibyte_utf8() {
    // 0xc3 0xa9 is the two-byte UTF-8 encoding of 'e' with an acute
    // accent; the printer must show the decoded text, not the bytes.
    let r = pp_bstring(&vec![0xc3, 0xa9], 0);
    assert_eq!(r.chars().count(), 2);
    assert_eq!(r.chars().next(), Some('\u{e9}'));
}

#[test]
fn test_pp_invalid_utf8_placeholder() {
    let vs = vec![Bencode::BString(vec![0xff])];
    assert_eq!(pp_bencodes(&vs, 0), "[\n [1 bytes]\n]\n");
}

#[test]
fn test_pp_invalid_utf8_longer() {
    assert_eq!(
        pp_bstring(&vec![0xc3, 0x28, 0xff, 0xfe], 0),
        "[4 bytes]\n"
    );
}

#[test]
fn test_pp_nested_list() {
    let vs = parse(b"l3:apai32ei43ee").unwrap();
    assert_eq!(
        pp_bencodes(&vs, 0),
        "[\n [\n  apa\n ]\n [\n  32\n ]\n [\n  43\n ]\n]\n"
    );
}

#[test]
fn test_pp_dict_lines() {
    let vs = parse(b"d3:apai10ee").unwrap();
    assert_eq!(pp_bencodes(&vs, 0), "[\n apa =>\n  10\n]\n");
}

#[test]
fn test_pp_dict_invalid_utf8_key() {
    let pairs = vec![(vec![0xffu8, 0xfe], Bencode::BInt(1))];
    assert_eq!(pp_dict(&pairs, 0), "[2 bytes] =>\n 1\n");
}

#[test]
fn test_pp_multiple_top_level() {
    let vs = parse(b"3:apai-23e").unwrap();
    assert_eq!(pp_bencodes(&vs, 0), "[\n apa\n]\n[\n -23\n]\n");
}
