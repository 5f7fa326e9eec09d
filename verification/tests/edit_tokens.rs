use std::collections::HashMap;

use beet_scheduler::edit_tokens::{
    build_edit_tokens_value, build_set_cookie_header, parse_edit_tokens, parse_edit_tokens_value,
    record_token,
};

#[test]
fn roundtrip_empty_cookie() {
    let map: HashMap<i64, String> = HashMap::new();
    let val = build_edit_tokens_value(&map);
    assert_eq!(val, "");
    let parsed = parse_edit_tokens_value(&val);
    assert!(parsed.is_empty());
}

#[test]
fn roundtrip_single_token() {
    let mut map = HashMap::new();
    map.insert(42i64, "abc123def456abc123def456abc123ef".to_string());
    let val = build_edit_tokens_value(&map);
    let parsed = parse_edit_tokens_value(&val);
    assert_eq!(
        parsed.get(&42).map(String::as_str),
        Some("abc123def456abc123def456abc123ef")
    );
}

#[test]
fn roundtrip_multiple_tokens() {
    let mut map = HashMap::new();
    map.insert(1i64, "a".repeat(32));
    map.insert(2i64, "b".repeat(32));
    let val = build_edit_tokens_value(&map);
    let parsed = parse_edit_tokens_value(&val);
    assert_eq!(parsed.len(), 2);
    assert_eq!(
        parsed.get(&1).map(String::as_str),
        Some("a".repeat(32).as_str())
    );
    assert_eq!(
        parsed.get(&2).map(String::as_str),
        Some("b".repeat(32).as_str())
    );
}

#[test]
fn parse_edit_tokens_from_header() {
    let pid = 7i64;
    let tok = "c".repeat(32);
    let header = format!("other=x; edit_tokens={}_{}", pid, tok);
    let map = parse_edit_tokens(&header);
    assert_eq!(map.get(&pid).map(String::as_str), Some(tok.as_str()));
}

#[test]
fn parse_edit_tokens_missing_cookie() {
    let map = parse_edit_tokens("");
    assert!(map.is_empty());
}

#[test]
fn build_set_cookie_header_format() {
    let mut map = HashMap::new();
    map.insert(5i64, "d".repeat(32));
    let header = build_set_cookie_header("abc12345", &map);
    assert!(
        header.starts_with("edit_tokens="),
        "should start with cookie name"
    );
    assert!(
        header.contains("Path=/m/abc12345"),
        "should have meeting path"
    );
    assert!(header.contains("Max-Age=7776000"), "90 days");
    assert!(header.contains("HttpOnly"));
    assert!(header.contains("SameSite=Lax"));
}

#[test]
fn build_value_sorts_entries_as_strings() {
    let mut map = HashMap::new();
    map.insert(2i64, "x".to_string());
    map.insert(10i64, "y".to_string());
    map.insert(-3i64, "z".to_string());
    assert_eq!(build_edit_tokens_value(&map), "-3_z.10_y.2_x");
}

#[test]
fn set_cookie_header_exact_text() {
    let mut map = HashMap::new();
    map.insert(5i64, "dd".to_string());
    assert_eq!(
        build_set_cookie_header("abc12345", &map),
        "edit_tokens=5_dd; Path=/m/abc12345; Max-Age=7776000; HttpOnly; SameSite=Lax"
    );
}

#[test]
fn parse_value_skips_malformed_entries() {
    let parsed = parse_edit_tokens_value("x_abc.12.7_t_u..+8_p.99999999999999999999_q");
    assert_eq!(parsed.len(), 2);
    assert_eq!(parsed.get(&7).map(String::as_str), Some("t_u"));
    assert_eq!(parsed.get(&8).map(String::as_str), Some("p"));
}

#[test]
fn parse_value_later_entry_wins() {
    let parsed = parse_edit_tokens_value("4_old.4_new");
    assert_eq!(parsed.len(), 1);
    assert_eq!(parsed.get(&4).map(String::as_str), Some("new"));
}

#[test]
fn parse_value_reads_extreme_ids() {
    let parsed = parse_edit_tokens_value("-9223372036854775808_lo.9223372036854775807_hi");
    assert_eq!(parsed.get(&i64::MIN).map(String::as_str), Some("lo"));
    assert_eq!(parsed.get(&i64::MAX).map(String::as_str), Some("hi"));
    let overflow = parse_edit_tokens_value("9223372036854775808_x.-9223372036854775809_y");
    assert!(overflow.is_empty());
}

#[test]
fn parse_value_keeps_empty_token() {
    let parsed = parse_edit_tokens_value("3_");
    assert_eq!(parsed.get(&3).map(String::as_str), Some(""));
}

#[test]
fn header_takes_first_edit_tokens_cookie_after_trimming() {
    let map = parse_edit_tokens("a=1;\t edit_tokens=1_one ; edit_tokens=2_two");
    assert_eq!(map.len(), 1);
    assert_eq!(map.get(&1).map(String::as_str), Some("one"));
}

#[test]
fn header_without_edit_tokens_cookie_is_empty() {
    let map = parse_edit_tokens("session=abc; other_edit_tokens=1_x");
    assert!(map.is_empty());
}

#[test]
fn roundtrip_keeps_tokens_with_underscores_and_negative_ids() {
    let mut map = HashMap::new();
    map.insert(-12i64, "a_b".to_string());
    map.insert(0i64, "".to_string());
    map.insert(300i64, "zz".to_string());
    let parsed = parse_edit_tokens_value(&build_edit_tokens_value(&map));
    assert_eq!(parsed, map);
}

#[test]
fn cookie_sent_back_gives_the_same_tokens() {
    let mut map = HashMap::new();
    map.insert(1i64, "0123456789abcdef0123456789abcdef".to_string());
    map.insert(25i64, "ffffffffffffffffffffffffffffffff".to_string());
    let header = format!("edit_tokens={}", build_edit_tokens_value(&map));
    assert_eq!(parse_edit_tokens(&header), map);
}

#[test]
fn cookie_value_of_hex_tokens_is_cookie_safe() {
    let mut map = HashMap::new();
    map.insert(-4i64, "00ff".to_string());
    map.insert(17i64, "abcdef".to_string());
    let value = build_edit_tokens_value(&map);
    assert!(value
        .chars()
        .all(|c| c.is_ascii_digit() || ('a'..='f').contains(&c) || "_.-".contains(c)));
}

#[test]
fn record_token_adds_or_replaces_entry() {
    let mut map = HashMap::new();
    map.insert(1i64, "old".to_string());
    record_token(&mut map, 2, "new".to_string());
    record_token(&mut map, 1, "newer".to_string());
    assert_eq!(map.len(), 2);
    assert_eq!(map.get(&1).map(String::as_str), Some("newer"));
    assert_eq!(map.get(&2).map(String::as_str), Some("new"));
}
