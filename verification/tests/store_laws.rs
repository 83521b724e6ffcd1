use poschain::block::{Block, Validator, genesis_block};
use poschain::store::{Storage, initialize_blockstore_with_genesis, initialize_candidatestore,
    get_block_with_height, get_candidate_pool};
use poschain::errors::EngineError;
use poschain::registry::create_validator_set;
use poschain::hashing::hash_input;

#[test]
fn commit_is_write_once() {
    let mut s = Storage::new();
    let g = genesis_block();
    let v = Validator { address: "validator0".to_string(), stake: 10 };
    let b = Block::generate(g.clone(), "one".to_string(), v.clone());
    let b2 = Block::generate(g.clone(), "two".to_string(), v);
    assert!(s.commit(1, b.clone()).is_ok());
    assert_eq!(s.commit(1, b2), Err(EngineError::DuplicateHeight));
    let read = s.at(1).expect("height 1 was committed");
    assert_eq!(read.bpm, "one");
    assert_eq!(read.hash, b.hash);
}

#[test]
fn at_missing_height_fails() {
    let s = Storage::new();
    assert_eq!(s.at(5).err(), Some(EngineError::MissingHeight));
}

#[test]
fn pool_keeps_submission_order() {
    let mut s = Storage::new();
    let g = genesis_block();
    let validators = create_validator_set(3, vec![10, 20, 30]);
    for v in &validators {
        let b = Block::generate(g.clone(), format!("from {}", v.address), v.clone());
        s.submit(1, b);
    }
    let pool = s.pool_at(1);
    assert_eq!(pool.blocks.len(), 3);
    assert_eq!(pool.blocks[0].validator.address, "validator0");
    assert_eq!(pool.blocks[1].validator.address, "validator1");
    assert_eq!(pool.blocks[2].validator.address, "validator2");
    // a different height is untouched
    assert_eq!(s.pool_at(2).blocks.len(), 0);
}

#[test]
fn genesis_initialization_is_write_once() {
    let mut s = Storage::new();
    assert!(initialize_blockstore_with_genesis(&mut s).is_ok());
    initialize_candidatestore(&mut s);
    let g = get_block_with_height(&s, &0);
    assert_eq!(g.index, 0);
    assert!(g.prev_hash.is_none());
    assert_eq!(
        initialize_blockstore_with_genesis(&mut s),
        Err(EngineError::DuplicateHeight)
    );
}

#[test]
fn test_block_store() {
    let mut storage = Storage::new();
    let genesis = genesis_block();
    storage.commit(0, genesis.clone()).expect("fresh store takes genesis");
    let block = storage.at(0).expect("height 0 present");
    assert_eq!(block.hash, genesis.hash);
}

#[test]
fn test_candidate_store() {
    let mut storage = Storage::new();
    let balances: Vec<u64> = vec![10, 20, 30, 40, 50, 60, 70, 80, 90, 100];
    let validators = create_validator_set(balances.len() as u64, balances);
    let genesis = genesis_block();
    for validator in validators {
        let payload = hash_input(&poschain::clock::chrono_timestamp());
        let block = Block::generate(genesis.clone(), payload, validator);
        storage.submit(1, block);
    }
    let pool = get_candidate_pool(&storage, &1);
    assert_eq!(pool.blocks.len(), 10);
}

#[test]
fn store_accepts_repeated_submissions() {
    // the store itself only appends; at-most-once per round is the
    // orchestrator's participant-set rule, not the store's
    let mut s = Storage::new();
    let g = genesis_block();
    let v = Validator { address: "validator0".to_string(), stake: 10 };
    let b = Block::generate(g, "again".to_string(), v);
    s.submit(3, b.clone());
    s.submit(3, b);
    assert_eq!(s.pool_at(3).blocks.len(), 2);
}
