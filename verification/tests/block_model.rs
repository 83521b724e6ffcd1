use poschain::block::{Block, Validator, genesis_block};
use poschain::hashing::hash_input;
use poschain::digits::{u64_to_string, parse_u64_str};

fn sentinel() -> Validator {
    Validator { address: "0x00".to_string(), stake: 0 }
}

#[test]
fn genesis_has_no_predecessor() {
    let g = genesis_block();
    assert_eq!(g.index, 0);
    assert!(g.prev_hash.is_none());
    assert_eq!(g.bpm, "0");
    assert_eq!(g.validator.address, "0x00");
    assert_eq!(g.validator.stake, 0);
}

#[test]
fn child_links_to_parent() {
    let g = genesis_block();
    let v = Validator { address: "validator0".to_string(), stake: 10 };
    let c = Block::generate(g.clone(), "payload".to_string(), v);
    assert_eq!(c.index, g.index + 1);
    assert_eq!(c.prev_hash.as_deref(), Some(g.hash.as_str()));
    assert_eq!(c.bpm, "payload");
}

#[test]
fn validate_accepts_fresh_child() {
    let g = genesis_block();
    let v = Validator { address: "validator0".to_string(), stake: 10 };
    let c = Block::generate(g.clone(), "72".to_string(), v);
    assert!(Block::validate(c, g));
}

#[test]
fn validate_rejects_mutated_payload() {
    let g = genesis_block();
    let v = Validator { address: "validator0".to_string(), stake: 10 };
    let mut c = Block::generate(g.clone(), "72".to_string(), v);
    c.bpm = "73".to_string();
    assert!(!Block::validate(c, g));
}

#[test]
fn validate_rejects_mutated_index() {
    let g = genesis_block();
    let v = Validator { address: "validator0".to_string(), stake: 10 };
    let mut c = Block::generate(g.clone(), "72".to_string(), v);
    c.index = 5;
    assert!(!Block::validate(c, g));
}

#[test]
fn validate_rejects_mutated_link() {
    let g = genesis_block();
    let v = Validator { address: "validator0".to_string(), stake: 10 };
    let mut c = Block::generate(g.clone(), "72".to_string(), v);
    c.prev_hash = Some("0000".to_string());
    assert!(!Block::validate(c, g));
}

#[test]
fn validate_rejects_mutated_hash() {
    let g = genesis_block();
    let v = Validator { address: "validator0".to_string(), stake: 10 };
    let mut c = Block::generate(g.clone(), "72".to_string(), v);
    c.hash = "not a hash".to_string();
    assert!(!Block::validate(c, g));
}

#[test]
fn validate_rejects_mutated_timestamp() {
    let g = genesis_block();
    let v = Validator { address: "validator0".to_string(), stake: 10 };
    let mut c = Block::generate(g.clone(), "72".to_string(), v);
    c.timestamp.push('9');
    assert!(!Block::validate(c, g));
}

#[test]
fn hash_input_is_sha256_hex() {
    // the well-known SHA-256 digest of "abc"
    assert_eq!(
        hash_input("abc"),
        "ba7816bf8f01cfea414140de5dae2223b00361a396177a9cb410ff61f20015ad"
    );
    assert_eq!(
        hash_input(""),
        "e3b0c44298fc1c149afbf4c8996fb92427ae41e4649b934ca495991b7852b855"
    );
    assert_eq!(hash_input("anything at all").len(), 64);
}

#[test]
fn block_hash_matches_params_hash() {
    let g = genesis_block();
    let recomputed = g.block_hash_from_instance();
    assert_eq!(recomputed, g.hash);
    let by_params =
        Block::block_hash_from_params(0, g.timestamp.as_str(), "0".to_string(), None);
    assert_eq!(by_params, g.hash);
}

#[test]
fn block_new_keeps_fields() {
    let prev_hash = "aa".to_string();
    let b = Block::new(3, "123", "pay".to_string(), Some(&prev_hash), sentinel());
    assert_eq!(b.index, 3);
    assert_eq!(b.timestamp, "123");
    assert_eq!(b.bpm, "pay");
    assert_eq!(b.prev_hash.as_deref(), Some("aa"));
}

#[test]
fn numerals_round_trip() {
    assert_eq!(u64_to_string(0), "0");
    assert_eq!(u64_to_string(42), "42");
    assert_eq!(u64_to_string(u64::MAX), "18446744073709551615");
    assert_eq!(parse_u64_str("0"), Some(0));
    assert_eq!(parse_u64_str("18446744073709551615"), Some(u64::MAX));
    assert_eq!(parse_u64_str("18446744073709551616"), None);
    assert_eq!(parse_u64_str("007"), None);
    assert_eq!(parse_u64_str(""), None);
    assert_eq!(parse_u64_str("12a"), None);
}

#[test]
fn clock_prints_a_number() {
    let ts = poschain::clock::chrono_timestamp();
    assert!(ts.parse::<i64>().is_ok());
}

#[test]
fn validate_rejects_index_at_limit() {
    let g = genesis_block();
    let v = Validator { address: "validator0".to_string(), stake: 10 };
    let c = Block::generate(g.clone(), "72".to_string(), v);
    let mut prev_at_limit = g;
    prev_at_limit.index = u64::MAX;
    assert!(!Block::validate(c, prev_at_limit));
}

#[test]
fn empty_fields_serialize_and_return() {
    let v = Validator { address: String::new(), stake: 0 };
    let b = Block::new(0, "", String::new(), None, v);
    let s = poschain::codec::serialize_block(&b);
    let b2 = poschain::codec::deserialize_block(&s).expect("valid encoding");
    assert_eq!(b2.timestamp, "");
    assert_eq!(b2.bpm, "");
    assert_eq!(b2.validator.address, "");
}
