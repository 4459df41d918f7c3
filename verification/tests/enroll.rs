use pai_sho::enroll::{Pin, Pins, Tokens, TOKEN_TTL_NS};

#[test]
fn token_is_single_use() {
    let mut tokens = Tokens::default();
    let token = tokens.mint("rustdev".to_string());
    assert_eq!(tokens.claim(&token), Some("rustdev".to_string()));
    assert_eq!(tokens.claim(&token), None);
}

#[test]
fn unknown_token_fails() {
    let mut tokens = Tokens::default();
    assert_eq!(tokens.claim("nope"), None);
}

#[test]
fn expired_token_fails() {
    let mut tokens = Tokens::default();
    let token = tokens.mint_with_ttl("rustdev".to_string(), 0);
    assert_eq!(tokens.claim(&token), None);
}

#[test]
fn token_is_64_lowercase_hex_digits() {
    let mut tokens = Tokens::new();
    let token = tokens.mint("rustdev".to_string());
    assert_eq!(token.len(), 64);
    assert!(token.chars().all(|c| c.is_ascii_digit() || ('a'..='f').contains(&c)));
}

#[test]
fn tokens_are_drawn_at_random() {
    let mut tokens = Tokens::new();
    let first = tokens.mint("a".to_string());
    let second = tokens.mint("b".to_string());
    assert_ne!(first, second);
    assert_eq!(tokens.claim(&second), Some("b".to_string()));
    assert_eq!(tokens.claim(&first), Some("a".to_string()));
}

#[test]
fn claim_at_honours_the_expiry() {
    let mut tokens = Tokens::new();
    let token = tokens.mint_with_ttl("rustdev".to_string(), 1_000_000_000);
    // Long before the expiry the token is live; a later claim finds it consumed.
    assert_eq!(tokens.claim_at(&token, 5), Some("rustdev".to_string()));
    assert_eq!(tokens.claim_at(&token, 5), None);
}

#[test]
fn claim_at_sweeps_expired_tokens() {
    let mut tokens = Tokens::new();
    let short = tokens.mint_with_ttl("short".to_string(), 0);
    let long = tokens.mint_with_ttl("long".to_string(), u64::MAX);
    // At the end of time only the saturated expiry is not yet past.
    assert_eq!(tokens.claim_at("nope", u64::MAX - 1), None);
    assert_eq!(tokens.claim_at(&short, 0), None);
    assert_eq!(tokens.claim_at(&long, u64::MAX - 1), Some("long".to_string()));
}

#[test]
fn ttl_is_five_minutes() {
    assert_eq!(TOKEN_TTL_NS, 5 * 60 * 1_000_000_000);
}

fn pin(key: &str, label: &str) -> Pin {
    Pin { key: key.to_string(), label: label.to_string() }
}

fn labels(pins: &Pins) -> Vec<(String, String)> {
    pins.pins().iter().map(|p| (p.key.clone(), p.label.clone())).collect()
}

#[test]
fn pins_add_replace_remove() {
    let mut pins = Pins::new(Vec::new());
    assert!(pins.pins().is_empty());
    pins.add("k1", "rustdev");
    pins.add("k2", "webdev");
    pins.add("k1", "rustdev2"); // re-pin replaces

    let loaded = labels(&pins);
    assert_eq!(loaded.len(), 2);
    assert_eq!(
        loaded.iter().find(|p| p.0 == "k1").unwrap().1,
        "rustdev2"
    );

    pins.remove("k2");
    assert_eq!(pins.pins().len(), 1);
}

#[test]
fn repin_moves_the_pin_last() {
    let mut pins = Pins::new(vec![pin("k1", "a"), pin("k2", "b"), pin("k3", "c")]);
    pins.add("k1", "z");
    assert_eq!(
        labels(&pins),
        vec![
            ("k2".to_string(), "b".to_string()),
            ("k3".to_string(), "c".to_string()),
            ("k1".to_string(), "z".to_string()),
        ]
    );
}

#[test]
fn pin_drops_every_stale_pin_of_the_key() {
    // A hand-edited store may hold a key twice; pinning it again leaves one.
    let mut pins = Pins::new(vec![pin("k1", "a"), pin("k2", "b"), pin("k1", "c")]);
    pins.add("k1", "d");
    assert_eq!(
        labels(&pins),
        vec![("k2".to_string(), "b".to_string()), ("k1".to_string(), "d".to_string())]
    );
    pins.remove("k1");
    assert_eq!(labels(&pins), vec![("k2".to_string(), "b".to_string())]);
}

#[test]
fn unpin_unknown_key_changes_nothing() {
    let mut pins = Pins::new(vec![pin("k1", "a")]);
    pins.remove("k9");
    assert_eq!(labels(&pins), vec![("k1".to_string(), "a".to_string())]);
    let all = pins.into_pins();
    assert_eq!(all.len(), 1);
}

#[test]
fn mint_at_names_the_token_by_its_bytes_and_expires_after_ttl() {
    let mut tokens = Tokens::new();
    let token = tokens.mint_at("rustdev".to_string(), &[0xab; 32], 10, 5);
    assert_eq!(token, "ab".repeat(32));
    // Live strictly before nanosecond 15, gone from then on.
    let mut later = Tokens::new();
    let same = later.mint_at("rustdev".to_string(), &[0xab; 32], 10, 5);
    assert_eq!(later.claim_at(&same, 15), None);
    assert_eq!(tokens.claim_at(&token, 14), Some("rustdev".to_string()));
}

#[test]
fn mint_at_replaces_a_pending_token_of_the_same_text() {
    let mut tokens = Tokens::new();
    tokens.mint_at("first".to_string(), &[1; 32], 0, 100);
    let token = tokens.mint_at("second".to_string(), &[1; 32], 0, 100);
    assert_eq!(tokens.claim_at(&token, 50), Some("second".to_string()));
    assert_eq!(tokens.claim_at(&token, 50), None);
}

#[test]
fn expiry_saturates() {
    let mut tokens = Tokens::new();
    let token = tokens.mint_at("x".to_string(), &[2; 32], u64::MAX - 1, 10);
    assert_eq!(tokens.claim_at(&token, u64::MAX - 1), Some("x".to_string()));
}

#[test]
fn token_lives_five_minutes_from_minting() {
    let minted = 1_000;
    let mut tokens = Tokens::new();
    let token = tokens.mint_at("ops".to_string(), &[3; 32], minted, TOKEN_TTL_NS);
    let mut late = Tokens::new();
    late.mint_at("ops".to_string(), &[3; 32], minted, TOKEN_TTL_NS);
    assert_eq!(late.claim_at(&token, minted + TOKEN_TTL_NS), None);
    assert_eq!(tokens.claim_at(&token, minted + TOKEN_TTL_NS - 1), Some("ops".to_string()));
}
