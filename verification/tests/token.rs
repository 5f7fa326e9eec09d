use beet_scheduler::token::{generate_id, generate_token, hex_encode, id_from_draws, tokens_match};

#[test]
fn generate_token_is_32_hex_chars() {
    let tok = generate_token();
    assert_eq!(tok.len(), 32);
    assert!(tok.chars().all(|c| c.is_ascii_hexdigit()), "all hex: {tok}");
}

#[test]
fn generate_token_is_unique() {
    let a = generate_token();
    let b = generate_token();
    assert_ne!(a, b);
}

#[test]
fn generate_token_is_lowercase() {
    let tok = generate_token();
    assert!(tok.chars().all(|c| c.is_ascii_digit() || ('a'..='f').contains(&c)));
}

#[test]
fn hex_encode_writes_two_lowercase_digits_per_byte() {
    assert_eq!(hex_encode(&[0x00, 0x0f, 0xa5, 0xff, 0x10]), "000fa5ff10");
    assert_eq!(hex_encode(&[]), "");
}

#[test]
fn tokens_match_compares_whole_tokens() {
    assert!(tokens_match("abc123", "abc123"));
    assert!(!tokens_match("abc123", "abc124"));
    assert!(!tokens_match("abc123", "abc12"));
    assert!(!tokens_match("", "a"));
    assert!(tokens_match("", ""));
}

#[test]
fn generate_id_is_eight_alphanumerics() {
    let id = generate_id();
    assert_eq!(id.len(), 8);
    assert!(id.chars().all(|c| c.is_ascii_alphanumeric()), "id: {id}");
}

#[test]
fn generate_id_differs_between_calls() {
    let ids: Vec<String> = (0..4).map(|_| generate_id()).collect();
    assert!(ids.iter().any(|id| id != &ids[0]));
}

#[test]
fn id_from_draws_keeps_each_byte_as_a_character() {
    assert_eq!(id_from_draws(b"aZ09xyQ1"), "aZ09xyQ1");
    assert_eq!(id_from_draws(&[0x41, 0xe9]), "A\u{e9}");
    assert_eq!(id_from_draws(&[]), "");
}
