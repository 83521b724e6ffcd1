use poschain::block::{Block, BlockChain, Validator, genesis_block};
use poschain::codec::{round_trip, round_trip_chain, serialize_block, deserialize_block};

fn block_with_prev() -> Block {
    let g = genesis_block();
    let v = Validator { address: "validator1".to_string(), stake: 20 };
    Block::generate(g, "some payload; with=separators:+-7:x".to_string(), v)
}

#[test]
fn round_trip_with_predecessor() {
    let b = block_with_prev();
    let b2 = round_trip(&b).expect("round trip must succeed");
    assert_eq!(b2.index, b.index);
    assert_eq!(b2.timestamp, b.timestamp);
    assert_eq!(b2.bpm, b.bpm);
    assert_eq!(b2.hash, b.hash);
    assert_eq!(b2.prev_hash, b.prev_hash);
    assert_eq!(b2.validator.address, b.validator.address);
    assert_eq!(b2.validator.stake, b.validator.stake);
}

#[test]
fn round_trip_without_predecessor() {
    let g = genesis_block();
    let g2 = round_trip(&g).expect("round trip must succeed");
    assert_eq!(g2.index, 0);
    assert!(g2.prev_hash.is_none());
    assert_eq!(g2.hash, g.hash);
}

#[test]
fn serialized_form_is_stable() {
    let v = Validator { address: "a".to_string(), stake: 7 };
    let b = Block {
        index: 2,
        timestamp: "99".to_string(),
        bpm: "x".to_string(),
        hash: "hh".to_string(),
        prev_hash: None,
        validator: v,
    };
    assert_eq!(
        serialize_block(&b),
        "index=2;timestamp=2:99;bpm=1:x;hash=2:hh;prev_hash=-;address=1:a;stake=7;"
    );
}

#[test]
fn deserialize_rejects_malformed_text() {
    assert!(deserialize_block("").is_none());
    assert!(deserialize_block("index=2").is_none());
    assert!(deserialize_block("nonsense").is_none());
    let b = block_with_prev();
    let mut s = serialize_block(&b);
    s.pop();
    assert!(deserialize_block(&s).is_none());
    let mut s2 = serialize_block(&b);
    s2.push('x');
    assert!(deserialize_block(&s2).is_none());
}

#[test]
fn deserialize_inverts_serialize_exactly() {
    let b = block_with_prev();
    let s = serialize_block(&b);
    let b2 = deserialize_block(&s).expect("valid encoding");
    assert_eq!(serialize_block(&b2), s);
}

#[test]
fn chain_round_trip() {
    let g = genesis_block();
    let v1 = Validator { address: "validator0".to_string(), stake: 10 };
    let v2 = Validator { address: "validator1".to_string(), stake: 20 };
    let b1 = Block::generate(g.clone(), "one".to_string(), v1);
    let b2 = Block::generate(g.clone(), "two".to_string(), v2);
    let chain = BlockChain { blocks: vec![g, b1, b2] };
    let c2 = round_trip_chain(&chain).expect("round trip must succeed");
    assert_eq!(c2.blocks.len(), 3);
    assert_eq!(c2.blocks[1].bpm, "one");
    assert_eq!(c2.blocks[2].bpm, "two");
    let empty = BlockChain { blocks: vec![] };
    let e2 = round_trip_chain(&empty).expect("round trip must succeed");
    assert_eq!(e2.blocks.len(), 0);
    assert_eq!(empty.serialize(), "blocks=0;");
    assert!(BlockChain::deserialize("blocks=1;").is_none());
}
