use rudis::de::{decode, deserialize, length_fits, parse_len, read_byte, Decoded, DeError, Dialect};
use rudis::ser::{serialize_array, serialize_bulk_str, serialize_map, serialize_null, serialize_str};
use rudis::store::Table;
use rudis::value::RedisValue;

fn value_of(input: &[u8], dialect: Dialect) -> (RedisValue, usize) {
    match decode(input, dialect) {
        Decoded::Value(v, n) => (v, n),
        other => panic!("expected a value, got {:?}", other),
    }
}

fn error_of(input: &[u8], dialect: Dialect) -> DeError {
    match decode(input, dialect) {
        Decoded::Error(e) => e,
        other => panic!("expected an error, got {:?}", other),
    }
}

fn text(v: &RedisValue) -> &str {
    v.as_str().expect("a string value")
}

#[test]
fn bulk_string_is_read() {
    for d in [Dialect::Client, Dialect::Server, Dialect::KeyValue] {
        let (v, n) = value_of(b"$5\r\nhello\r\n", d);
        assert_eq!(text(&v), "hello");
        assert_eq!(n, 11);
    }
}

#[test]
fn bulk_string_followed_by_more_takes_only_its_bytes() {
    let (v, n) = value_of(b"$2\r\nhi\r\n+next\r\n", Dialect::Server);
    assert_eq!(text(&v), "hi");
    assert_eq!(n, 8);
}

#[test]
fn empty_bulk_string() {
    let (v, n) = value_of(b"$0\r\n\r\n", Dialect::Client);
    assert_eq!(text(&v), "");
    assert_eq!(n, 6);
}

#[test]
fn multibyte_bulk_string() {
    let (v, n) = value_of("$2\r\né\r\n".as_bytes(), Dialect::Client);
    assert_eq!(text(&v), "é");
    assert_eq!(n, 8);
}

#[test]
fn negative_length_string_is_null_for_the_client() {
    let (v, n) = value_of(b"$-1\r\n", Dialect::Client);
    assert!(matches!(v, RedisValue::Null));
    assert_eq!(n, 5);
}

#[test]
fn negative_length_is_refused_by_the_servers() {
    assert_eq!(error_of(b"$-1\r\n", Dialect::Server), DeError::LengthNotCrlf);
    assert_eq!(error_of(b"$-1\r\n", Dialect::KeyValue), DeError::LengthNotCrlf);
}

#[test]
fn integers_are_read_by_the_client() {
    let (v, n) = value_of(b":42\r\n", Dialect::Client);
    assert!(matches!(v, RedisValue::Integer(42)));
    assert_eq!(n, 5);
    let (v, _) = value_of(b":-7\r\n", Dialect::Client);
    assert!(matches!(v, RedisValue::Integer(-7)));
}

#[test]
fn a_minus_sign_anywhere_in_a_length_negates_it() {
    let (v, n) = value_of(b":1-2\r\n", Dialect::Client);
    assert!(matches!(v, RedisValue::Integer(-12)));
    assert_eq!(n, 6);
}

#[test]
fn integers_are_unknown_to_the_servers() {
    assert_eq!(error_of(b":42\r\n", Dialect::Server), DeError::UnknownTag(b':'));
    assert_eq!(error_of(b":42\r\n", Dialect::KeyValue), DeError::UnknownTag(b':'));
}

#[test]
fn simple_string_ends_at_the_first_crlf() {
    let (v, n) = value_of(b"+OK\r\n", Dialect::Server);
    assert_eq!(text(&v), "OK");
    assert_eq!(n, 5);
    let (v, n) = value_of(b"+a\rb\nc\r\nrest", Dialect::Client);
    assert_eq!(text(&v), "a\rb\nc");
    assert_eq!(n, 8);
    let (v, n) = value_of(b"+\r\n", Dialect::Client);
    assert_eq!(text(&v), "");
    assert_eq!(n, 3);
}

#[test]
fn simple_string_is_unknown_to_the_key_value_reader() {
    assert_eq!(error_of(b"+OK\r\n", Dialect::KeyValue), DeError::UnknownTag(b'+'));
}

#[test]
fn array_of_strings() {
    let (v, n) = value_of(b"*2\r\n+GET\r\n+hey\r\n", Dialect::Server);
    assert_eq!(n, 16);
    match v {
        RedisValue::Array(items) => {
            assert_eq!(items.len(), 2);
            assert_eq!(text(&items[0]), "GET");
            assert_eq!(text(&items[1]), "hey");
        }
        other => panic!("not an array: {:?}", other),
    }
}

#[test]
fn nested_array() {
    let (v, n) = value_of(b"*2\r\n*1\r\n:5\r\n$-1\r\n", Dialect::Client);
    assert_eq!(n, 17);
    match v {
        RedisValue::Array(items) => {
            assert!(matches!(&items[0], RedisValue::Array(inner) if inner.len() == 1 && matches!(inner[0], RedisValue::Integer(5))));
            assert!(matches!(items[1], RedisValue::Null));
        }
        other => panic!("not an array: {:?}", other),
    }
}

#[test]
fn negative_length_array_is_empty() {
    let (v, n) = value_of(b"*-1\r\n", Dialect::Client);
    assert!(matches!(v, RedisValue::Array(ref items) if items.is_empty()));
    assert_eq!(n, 5);
}

#[test]
fn map_reads_its_count_in_pairs() {
    let (v, n) = value_of(b"%1\r\n+a\r\n+b\r\n", Dialect::Client);
    assert_eq!(n, 12);
    let key = "a".to_string();
    assert_eq!(text(v.get(&key).expect("key a")), "b");

    let (v, n) = value_of(b"%2\r\n+a\r\n+b\r\n$1\r\nc\r\n:4\r\n", Dialect::Client);
    assert_eq!(n, 23);
    assert_eq!(text(v.get(&"a".to_string()).unwrap()), "b");
    assert!(matches!(v.get(&"c".to_string()), Some(RedisValue::Integer(4))));

    assert_eq!(error_of(b"%2\r\n+a\r\n+b\r\n", Dialect::Client), DeError::Incomplete);

    let (v, n) = value_of(b"%0\r\n", Dialect::Client);
    assert!(matches!(v, RedisValue::Mapping(ref e) if e.is_empty()));
    assert_eq!(n, 4);
}

#[test]
fn later_pair_wins_over_an_earlier_one() {
    let (v, _) = value_of(b"%2\r\n+k\r\n+1\r\n+k\r\n+2\r\n", Dialect::Server);
    match &v {
        RedisValue::Mapping(entries) => assert_eq!(entries.len(), 1),
        other => panic!("not a mapping: {:?}", other),
    }
    assert_eq!(text(v.get(&"k".to_string()).unwrap()), "2");
    assert!(v.get(&"x".to_string()).is_none());
}

#[test]
fn key_value_reader_reads_star_as_pairs() {
    let (v, n) = value_of(b"*2\r\n$9\r\nSUBSCRIBE\r\n$7\r\nchannel\r\n", Dialect::KeyValue);
    assert_eq!(n, 32);
    assert_eq!(text(v.get(&"SUBSCRIBE".to_string()).unwrap()), "channel");
}

#[test]
fn key_must_be_a_string() {
    assert_eq!(error_of(b"%1\r\n:1\r\n+b\r\n", Dialect::Client), DeError::KeyNotString);
}

#[test]
fn running_out_of_input_is_incomplete() {
    assert_eq!(error_of(b"", Dialect::Client), DeError::Incomplete);
    assert_eq!(error_of(b"$5\r\nhel", Dialect::Client), DeError::Incomplete);
    assert_eq!(error_of(b"$5", Dialect::Client), DeError::Incomplete);
    assert_eq!(error_of(b"+OK\r", Dialect::Server), DeError::Incomplete);
    assert_eq!(error_of(b"*2\r\n+GET\r\n", Dialect::Server), DeError::Incomplete);
}

#[test]
fn malformed_inputs() {
    assert_eq!(error_of(b"$3\r\nabcX\n", Dialect::Client), DeError::StringNotCrlf);
    assert_eq!(error_of(b"$3\r\nabc\rX", Dialect::Client), DeError::StringNotCrlf);
    assert_eq!(error_of(b"$2\r\n\xff\xfe\r\n", Dialect::Client), DeError::InvalidUtf8);
    assert_eq!(error_of(b"+\xc3\r\n", Dialect::Client), DeError::InvalidUtf8);
    assert_eq!(error_of(b"$\r\n", Dialect::Server), DeError::InvalidLength);
    assert_eq!(error_of(b"$5x\r\n", Dialect::Server), DeError::LengthNotCrlf);
    assert_eq!(error_of(b"$5\rx", Dialect::Server), DeError::LengthNotCrlf);
    assert_eq!(error_of(b"?", Dialect::Client), DeError::UnknownTag(b'?'));
}

#[test]
fn seventeen_digit_length_is_too_long() {
    assert!(matches!(decode(b"$12345678901234567\r\n", Dialect::Client), Decoded::LengthTooLong));
    assert!(matches!(decode(b"*12345678901234567", Dialect::Server), Decoded::LengthTooLong));
    assert_eq!(error_of(b"$1234567890123456\r\n", Dialect::Client), DeError::Incomplete);
}

#[test]
fn deserialize_gives_value_or_error() {
    let (v, n) = deserialize(b"+PONG\r\n", Dialect::Client).unwrap();
    assert_eq!(text(&v), "PONG");
    assert_eq!(n, 7);
    assert_eq!(deserialize(b"!", Dialect::Client).unwrap_err(), DeError::UnknownTag(b'!'));
}

#[test]
fn byte_and_length_readers() {
    assert_eq!(read_byte(b"ab", 1), Ok(b'b'));
    assert_eq!(read_byte(b"ab", 2), Err(DeError::Incomplete));
    assert!(length_fits(b"123\r\n", 0, Dialect::Client));
    assert!(!length_fits(b"12345678901234567\r\n", 0, Dialect::Client));
    assert!(length_fits(b"1234567890123456\r\n", 0, Dialect::Client));
    assert_eq!(parse_len(b"$42\r\n", 1, Dialect::Server), Ok((42, 5)));
    assert_eq!(parse_len(b"-42\r\n", 0, Dialect::Client), Ok((-42, 5)));
    assert_eq!(parse_len(b"-42\r\n", 0, Dialect::Server), Err(DeError::LengthNotCrlf));
    assert_eq!(parse_len(b"007\r\n", 0, Dialect::Server), Ok((7, 5)));
    assert_eq!(parse_len(b"\r\n", 0, Dialect::Server), Err(DeError::InvalidLength));
}

#[test]
fn writers_produce_the_protocol_bytes() {
    let mut out = Vec::new();
    serialize_bulk_str(&mut out, "hey");
    assert_eq!(out, b"$3\r\nhey\r\n");

    let mut out = Vec::new();
    serialize_bulk_str(&mut out, "é");
    assert_eq!(out, "$2\r\né\r\n".as_bytes());

    let mut out = Vec::new();
    serialize_bulk_str(&mut out, "");
    assert_eq!(out, b"$0\r\n\r\n");

    let mut out = b"x".to_vec();
    serialize_str(&mut out, "OK");
    assert_eq!(out, b"x+OK\r\n");

    let mut out = Vec::new();
    serialize_null(&mut out);
    assert_eq!(out, b"$-1\r\n");

    let mut out = Vec::new();
    serialize_array(&mut out, &["GET".to_string(), "hey".to_string()]);
    assert_eq!(out, b"*2\r\n+GET\r\n+hey\r\n");

    let mut out = Vec::new();
    serialize_array(&mut out, &[]);
    assert_eq!(out, b"*0\r\n");
}

#[test]
fn long_string_length_has_several_digits() {
    let s = "a".repeat(1234);
    let mut out = Vec::new();
    serialize_bulk_str(&mut out, &s);
    assert!(out.starts_with(b"$1234\r\n"));
    assert_eq!(out.len(), 7 + 1234 + 2);
}

#[test]
fn tables_are_written_in_insertion_order() {
    let mut t: Table<String> = Table::new();
    t.insert("a".to_string(), "1".to_string());
    t.insert("b".to_string(), "2".to_string());
    t.insert("a".to_string(), "3".to_string());
    let mut out = Vec::new();
    serialize_map(&mut out, &t, Dialect::Client);
    assert_eq!(out, b"%2\r\n+a\r\n+3\r\n+b\r\n+2\r\n");
    let mut out = Vec::new();
    serialize_map(&mut out, &t, Dialect::KeyValue);
    assert_eq!(out, b"*2\r\n+a\r\n+3\r\n+b\r\n+2\r\n");
}

#[test]
fn law_bulk_string_roundtrip_example() {
    for s in ["", "hello", "a\r\nb", "日本"] {
        let mut out = Vec::new();
        serialize_bulk_str(&mut out, s);
        let len = out.len();
        out.extend_from_slice(b"trailing");
        for d in [Dialect::Client, Dialect::Server, Dialect::KeyValue] {
            let (v, n) = value_of(&out, d);
            assert_eq!(text(&v), s);
            assert_eq!(n, len);
        }
    }
}

#[test]
fn law_simple_string_roundtrip_example() {
    let mut out = Vec::new();
    serialize_str(&mut out, "a\rb");
    let (v, n) = value_of(&out, Dialect::Client);
    assert_eq!(text(&v), "a\rb");
    assert_eq!(n, out.len());
}

#[test]
fn simple_string_with_crlf_does_not_roundtrip() {
    let mut out = Vec::new();
    serialize_str(&mut out, "a\r\nb");
    let (v, n) = value_of(&out, Dialect::Client);
    assert_eq!(text(&v), "a");
    assert_eq!(n, 4);
}

#[test]
fn law_null_roundtrip_example() {
    let mut out = Vec::new();
    serialize_null(&mut out);
    out.push(b'+');
    let (v, n) = value_of(&out, Dialect::Client);
    assert!(matches!(v, RedisValue::Null));
    assert_eq!(n, 5);
}

#[test]
fn law_array_roundtrip_example() {
    let words = ["SET".to_string(), "hey".to_string(), "42".to_string()];
    let mut out = Vec::new();
    serialize_array(&mut out, &words);
    let (v, n) = value_of(&out, Dialect::Server);
    assert_eq!(n, out.len());
    match v {
        RedisValue::Array(items) => {
            assert_eq!(items.len(), 3);
            for (item, word) in items.iter().zip(words.iter()) {
                assert_eq!(text(item), word);
            }
        }
        other => panic!("not an array: {:?}", other),
    }
}

#[test]
fn law_table_roundtrip_example() {
    let mut t: Table<String> = Table::new();
    t.insert("a".to_string(), "1".to_string());
    t.insert("bb".to_string(), "".to_string());
    t.insert("a".to_string(), "3".to_string());
    for d in [Dialect::Client, Dialect::Server] {
        let mut out = Vec::new();
        serialize_map(&mut out, &t, d);
        let len = out.len();
        out.extend_from_slice(b"+rest\r\n");
        let (v, n) = value_of(&out, d);
        assert_eq!(n, len);
        match &v {
            RedisValue::Mapping(entries) => assert_eq!(entries.len(), 2),
            other => panic!("not a mapping: {:?}", other),
        }
        assert_eq!(text(v.get(&"a".to_string()).unwrap()), "3");
        assert_eq!(text(v.get(&"bb".to_string()).unwrap()), "");
    }
    let empty: Table<String> = Table::new();
    let mut out = Vec::new();
    serialize_map(&mut out, &empty, Dialect::Server);
    let (v, n) = value_of(&out, Dialect::Server);
    assert!(matches!(v, RedisValue::Mapping(ref e) if e.is_empty()));
    assert_eq!(n, 4);
}

#[test]
fn law_decided_prefix_example() {
    let inputs: [&[u8]; 5] = [b"*1\r\n+a\r\n", b"$3\r\nabX\n", b"?", b"%1\r\n:1\r\n", b"$12345678901234567"];
    for input in inputs {
        let mut longer = input.to_vec();
        longer.extend_from_slice(b"\r\n+more\r\n");
        let a = format!("{:?}", decode(input, Dialect::Client));
        let b = format!("{:?}", decode(&longer, Dialect::Client));
        assert_eq!(a, b);
    }
}
