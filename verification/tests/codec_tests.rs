use tsg_metadata::codec::{hex_decode, parse_hex_u32, parse_i64};
use tsg_metadata::text::split_lines;

#[test]
fn hex_decode_bytes() {
    assert_eq!(hex_decode("00ff").unwrap(), vec![0u8, 255]);
    assert_eq!(hex_decode("0F").unwrap(), vec![15u8]);
    assert_eq!(hex_decode("deadBEEF").unwrap(), vec![0xdeu8, 0xad, 0xbe, 0xef]);
    assert_eq!(hex_decode("").unwrap(), Vec::<u8>::new());
}

#[test]
fn hex_decode_rejects() {
    assert!(hex_decode("f").is_none());
    assert!(hex_decode("zz").is_none());
    assert!(hex_decode("0 1").is_none());
}

#[test]
fn parse_i64_values() {
    assert_eq!(parse_i64("123"), Some(123));
    assert_eq!(parse_i64("+42"), Some(42));
    assert_eq!(parse_i64("-7"), Some(-7));
    assert_eq!(parse_i64("0"), Some(0));
    assert_eq!(parse_i64("9223372036854775807"), Some(i64::MAX));
    assert_eq!(parse_i64("-9223372036854775808"), Some(i64::MIN));
}

#[test]
fn parse_i64_rejects() {
    assert_eq!(parse_i64(""), None);
    assert_eq!(parse_i64("-"), None);
    assert_eq!(parse_i64("12a"), None);
    assert_eq!(parse_i64("9223372036854775808"), None);
    assert_eq!(parse_i64("-9223372036854775809"), None);
}

#[test]
fn parse_hex_u32_values() {
    assert_eq!(parse_hex_u32("0"), Some(0));
    assert_eq!(parse_hex_u32("ffffffff"), Some(u32::MAX));
    assert_eq!(parse_hex_u32("DeadBeef"), Some(0xdead_beef));
    assert_eq!(parse_hex_u32("+10"), Some(16));
    assert_eq!(parse_hex_u32("0000000001"), Some(1));
}

#[test]
fn parse_hex_u32_rejects() {
    assert_eq!(parse_hex_u32(""), None);
    assert_eq!(parse_hex_u32("+"), None);
    assert_eq!(parse_hex_u32("100000000"), None);
    assert_eq!(parse_hex_u32("xyz"), None);
}

#[test]
fn sort_dedup_strings() {
    let input = vec!["pear".to_string(), "apple".to_string(), "pear".to_string(), "fig".to_string()];
    let sorted = tsg_metadata::order::sort_dedup(input);
    assert_eq!(sorted, vec!["apple".to_string(), "fig".to_string(), "pear".to_string()]);
}

#[test]
fn split_lines_edges() {
    assert_eq!(split_lines(""), Vec::<String>::new());
    assert_eq!(split_lines("a\nb"), vec!["a".to_string(), "b".to_string()]);
    assert_eq!(split_lines("a\nb\n"), vec!["a".to_string(), "b".to_string()]);
    assert_eq!(split_lines("a\r\nb\r\n"), vec!["a".to_string(), "b".to_string()]);
    assert_eq!(split_lines("\n\n"), vec!["".to_string(), "".to_string()]);
    assert_eq!(split_lines("a\r"), vec!["a\r".to_string()]);
}
