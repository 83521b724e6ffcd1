//! The validator registry: a fixed, ordered set of validators, each with a
//! synthetic address and a stake.

use vstd::prelude::*;
use crate::block::{Validator, ValidatorView};
use crate::digits::{dec, u64_to_string};
use crate::errors::EngineError;

verus! {

/// The address assigned to the validator at position `i`.
pub open spec fn validator_address(i: nat) -> Seq<char> {
    "validator"@ + dec(i)
}

/// Builds the registry: one validator per stake, each with the synthetic
/// address of its position.
pub fn create_validator_set(n: u64, stakes: Vec<u64>) -> (r: Vec<Validator>)
    requires
        n <= stakes@.len(),
    ensures
        r@.len() == n,
        forall|i: int|
            0 <= i < n ==> (#[trigger] r@[i])@ == (ValidatorView {
                address: validator_address(i as nat),
                stake: stakes@[i],
            }),
{
    let mut validators: Vec<Validator> = Vec::new();
    let mut i: u64 = 0;
    while i < n
        invariant
            i <= n,
            n <= stakes@.len(),
            validators@.len() == i,
            forall|j: int|
                0 <= j < i ==> (#[trigger] validators@[j])@ == (ValidatorView {
                    address: validator_address(j as nat),
                    stake: stakes@[j],
                }),
        decreases n - i,
    {
        let mut address = "validator".to_owned();
        let istr = u64_to_string(i);
        address.append(istr.as_str());
        validators.push(Validator { address, stake: stakes[i as usize] });
        i = i + 1;
    }
    validators
}

/// The development registry: ten validators with stakes 10, 20, ..., 100.
pub fn default_validator_set() -> (r: Vec<Validator>)
    ensures
        r@.len() == 10,
        forall|i: int|
            0 <= i < 10 ==> (#[trigger] r@[i])@ == (ValidatorView {
                address: validator_address(i as nat),
                stake: (10 * (i + 1)) as u64,
            }),
{
    let stakes: Vec<u64> = vec![10, 20, 30, 40, 50, 60, 70, 80, 90, 100];
    let r = create_validator_set(10, stakes);
    proof {
        assert forall|i: int|
            0 <= i < 10 implies (#[trigger] r@[i])@ == (ValidatorView {
            address: validator_address(i as nat),
            stake: (10 * (i + 1)) as u64,
        }) by {
            assert(seq![10u64, 20, 30, 40, 50, 60, 70, 80, 90, 100][i] == (10 * (i + 1)) as u64);
        }
    }
    r
}

/// Checks the stake list of a configuration: every stake must be positive,
/// as a zero-stake validator could never win the lottery.
pub fn check_stakes(stakes: &Vec<u64>) -> (r: Result<(), EngineError>)
    ensures
        match r {
            Ok(()) => forall|i: int| 0 <= i < stakes@.len() ==> #[trigger] stakes@[i] > 0,
            Err(e) => {
                &&& e == EngineError::ConfigError
                &&& exists|i: int| 0 <= i < stakes@.len() && #[trigger] stakes@[i] == 0
            },
        },
{
    let n: usize = stakes.len();
    let mut i: usize = 0;
    while i < n
        invariant
            i <= n,
            n == stakes@.len(),
            forall|j: int| 0 <= j < i ==> #[trigger] stakes@[j] > 0,
        decreases n - i,
    {
        if stakes[i] == 0 {
            return Err(EngineError::ConfigError);
        }
        i = i + 1;
    }
    Ok(())
}

/// The weight a validator's vote carries in the lottery: exactly its stake,
/// whatever the pool's total.
pub fn get_validator_weight(stake: u64, _total_votes: u64) -> (r: u64)
    ensures
        r == stake,
{
    stake
}

} // verus!
