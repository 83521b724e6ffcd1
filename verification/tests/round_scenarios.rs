use poschain::block::{Block, Validator, genesis_block};
use poschain::store::Storage;
use poschain::registry::{create_validator_set, default_validator_set, check_stakes};
use poschain::round::{RoundState, TickOutcome, tick};
use poschain::lottery::run_lottery;
use poschain::errors::EngineError;

fn genesis_at(timestamp: &str) -> Block {
    let sentinel = Validator { address: "0x00".to_string(), stake: 0 };
    Block::new(0, timestamp, "0".to_string(), None, sentinel)
}

#[test]
fn empty_pool_keeps_the_height() {
    // scenario: only genesis committed, block time zero, nothing proposed
    // before the pool check: the tick ends with the pool still judged
    // empty and no new canonical block
    let mut storage = Storage::new();
    storage.commit(0, genesis_at("100")).unwrap();
    let registry = create_validator_set(3, vec![10, 20, 30]);
    let mut state = RoundState::new(registry.len());
    let outcome = tick(&mut state, &registry, &mut storage, 0, 200);
    assert_eq!(outcome, Ok(TickOutcome::PoolEmpty));
    assert_eq!(state.height, 1);
    assert!(storage.at(1).is_err());
    // but the proposals of this tick are in the pool for the next check
    assert_eq!(storage.pool_at(1).blocks.len(), 3);
}

#[test]
fn full_round_commits_a_winner() {
    // scenario: three validators each propose once at height one; the
    // lottery picks one and the commit lands at height one
    let mut storage = Storage::new();
    let genesis = genesis_at("100");
    storage.commit(0, genesis.clone()).unwrap();
    let registry = create_validator_set(3, vec![10, 20, 30]);
    for v in &registry {
        let b = Block::generate(genesis.clone(), format!("by {}", v.address), v.clone());
        storage.submit(1, b);
    }
    let pool = storage.pool_at(1);
    assert_eq!(pool.blocks.len(), 3);
    let winner = run_lottery(&pool).expect("positive total stake");
    storage.commit(1, winner).expect("height 1 still free");
    let committed = storage.at(1).expect("height 1 committed");
    assert_eq!(committed.index, 1);
    assert_eq!(committed.prev_hash.as_deref(), Some(genesis.hash.as_str()));
}

#[test]
fn second_proposal_in_a_round_is_rejected() {
    // scenario: once a validator is in the participant set, another tick
    // adds no second proposal for it: the pool does not grow again
    let mut storage = Storage::new();
    storage.commit(0, genesis_at("100")).unwrap();
    let registry = create_validator_set(3, vec![10, 20, 30]);
    let mut state = RoundState::new(registry.len());
    assert_eq!(tick(&mut state, &registry, &mut storage, 0, 200), Ok(TickOutcome::PoolEmpty));
    assert_eq!(storage.pool_at(1).blocks.len(), 3);
    // every validator is now recorded; the next tick forwards nothing new
    let outcome = tick(&mut state, &registry, &mut storage, 0, 300);
    assert_eq!(storage.pool_at(1).blocks.len(), 3);
    assert_eq!(outcome, Ok(TickOutcome::Committed));
    assert_eq!(state.height, 2);
    assert_eq!(storage.at(1).unwrap().index, 1);
}

#[test]
fn waiting_until_block_time_elapses() {
    let mut storage = Storage::new();
    storage.commit(0, genesis_at("100")).unwrap();
    let registry = create_validator_set(2, vec![10, 20]);
    let mut state = RoundState::new(registry.len());
    // now == timestamp + blocktime is still inside the window
    assert_eq!(tick(&mut state, &registry, &mut storage, 50, 150), Ok(TickOutcome::Waiting));
    assert_eq!(storage.pool_at(1).blocks.len(), 0);
    assert_eq!(tick(&mut state, &registry, &mut storage, 50, 151), Ok(TickOutcome::PoolEmpty));
}

#[test]
fn missing_previous_block_is_fatal() {
    let mut storage = Storage::new();
    let registry = create_validator_set(2, vec![10, 20]);
    let mut state = RoundState::new(registry.len());
    assert_eq!(
        tick(&mut state, &registry, &mut storage, 0, 200),
        Err(EngineError::MissingHeight)
    );
}

#[test]
fn corrupt_timestamp_is_fatal() {
    let mut storage = Storage::new();
    storage.commit(0, genesis_at("not a number")).unwrap();
    let registry = create_validator_set(2, vec![10, 20]);
    let mut state = RoundState::new(registry.len());
    assert_eq!(
        tick(&mut state, &registry, &mut storage, 0, 200),
        Err(EngineError::SerializationError)
    );
}

#[test]
fn registry_addresses_follow_position() {
    let regs = default_validator_set();
    assert_eq!(regs.len(), 10);
    assert_eq!(regs[0].address, "validator0");
    assert_eq!(regs[0].stake, 10);
    assert_eq!(regs[9].address, "validator9");
    assert_eq!(regs[9].stake, 100);
    assert!(check_stakes(&vec![10, 20]).is_ok());
    assert_eq!(check_stakes(&vec![10, 0]), Err(EngineError::ConfigError));
}
