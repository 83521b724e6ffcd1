use poschain::block::{Block, BlockChain, Validator, genesis_block};
use poschain::lottery::{lottery_winner, pool_total, run_lottery, build_votes};
use poschain::errors::EngineError;
use poschain::randomness::{generate_random_number_vrf, vrf_in_range, draw_below,
    generate_random_number};
use poschain::registry::get_validator_weight;

fn pool_with_stakes(stakes: &[u64]) -> BlockChain {
    let g = genesis_block();
    let mut blocks = Vec::new();
    for (i, st) in stakes.iter().enumerate() {
        let v = Validator { address: format!("validator{}", i), stake: *st };
        blocks.push(Block::generate(g.clone(), format!("payload{}", i), v));
    }
    BlockChain { blocks }
}

#[test]
fn winner_follows_the_draw_windows() {
    let pool = pool_with_stakes(&[10, 20, 70]);
    assert_eq!(pool_total(&pool), 100);
    // windows: [0,10) -> 0, [10,30) -> 1, [30,100) -> 2
    assert_eq!(lottery_winner(&pool, 0).unwrap().validator.address, "validator0");
    assert_eq!(lottery_winner(&pool, 9).unwrap().validator.address, "validator0");
    assert_eq!(lottery_winner(&pool, 10).unwrap().validator.address, "validator1");
    assert_eq!(lottery_winner(&pool, 29).unwrap().validator.address, "validator1");
    assert_eq!(lottery_winner(&pool, 30).unwrap().validator.address, "validator2");
    assert_eq!(lottery_winner(&pool, 99).unwrap().validator.address, "validator2");
}

#[test]
fn zero_total_stake_is_rejected() {
    let pool = pool_with_stakes(&[0, 0]);
    assert_eq!(lottery_winner(&pool, 0).err(), Some(EngineError::ZeroTotalStake));
    assert_eq!(run_lottery(&pool).err(), Some(EngineError::ZeroTotalStake));
    let empty = BlockChain { blocks: vec![] };
    assert_eq!(run_lottery(&empty).err(), Some(EngineError::ZeroTotalStake));
}

#[test]
fn single_candidate_always_wins() {
    let pool = pool_with_stakes(&[5]);
    for r in 0..5 {
        assert_eq!(lottery_winner(&pool, r).unwrap().validator.address, "validator0");
    }
    assert_eq!(run_lottery(&pool).unwrap().validator.address, "validator0");
}

#[test]
fn votes_carry_the_proposer_stake() {
    let pool = pool_with_stakes(&[10, 20, 70]);
    let votes = build_votes(&pool);
    assert_eq!(votes.len(), 3);
    assert_eq!(votes[2].stake, 70);
    assert_eq!(get_validator_weight(votes[2].stake, 100), 70);
}

#[test]
fn empirical_win_rate_tracks_stake() {
    // stakes [10, 20, 70]: over many uniform draws, the third candidate
    // should win about 70% of the time
    let pool = pool_with_stakes(&[10, 20, 70]);
    let mut seed: u64 = 0xfeed_5eed;
    let trials = 10_000;
    let mut third_wins = 0;
    for _ in 0..trials {
        let draw = vrf_in_range(seed, 100);
        seed = generate_random_number_vrf(seed);
        let w = lottery_winner(&pool, draw).unwrap();
        if w.validator.address == "validator2" {
            third_wins += 1;
        }
    }
    assert!(third_wins >= 6700, "third candidate won only {} of {}", third_wins, trials);
    assert!(third_wins <= 7300, "third candidate won {} of {}", third_wins, trials);
}

#[test]
fn draws_stay_in_range() {
    for n in [1u64, 2, 7, 100] {
        for _ in 0..50 {
            assert!(draw_below(n) < n);
        }
    }
    // nothing is promised of the raw generator; it must only run
    let _ = generate_random_number();
    // the seedable step is deterministic
    assert_eq!(generate_random_number_vrf(1), generate_random_number_vrf(1));
    assert!(vrf_in_range(12345, 10) < 10);
}
