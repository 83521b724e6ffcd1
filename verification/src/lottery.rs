//! The stake-weighted lottery: roulette-wheel selection over a candidate
//! pool, with the law that a candidate owns exactly as many winning draws as
//! its stake.

use vstd::prelude::*;
use crate::block::{Block, BlockView, BlockChain, Vote};
use crate::errors::EngineError;

verus! {

/// The combined stake of a pool's proposers.
pub open spec fn total_stake(pool: Seq<BlockView>) -> int
    decreases pool.len(),
{
    if pool.len() == 0 {
        0
    } else {
        total_stake(pool.drop_last()) + pool.last().validator.stake
    }
}

/// The combined stake of the first `i` candidates.
pub open spec fn cum_stake(pool: Seq<BlockView>, i: int) -> int {
    total_stake(pool.take(i))
}

/// The winner of draw `r`: the first candidate whose cumulative stake
/// exceeds `r`.
pub open spec fn winner_index(pool: Seq<BlockView>, r: int) -> int
    decreases pool.len(),
{
    if pool.len() == 0 {
        0
    } else if r < pool[0].validator.stake {
        0
    } else {
        1 + winner_index(pool.drop_first(), r - pool[0].validator.stake)
    }
}

pub proof fn lemma_winner_nonneg(pool: Seq<BlockView>, r: int)
    ensures
        winner_index(pool, r) >= 0,
    decreases pool.len(),
{
    if pool.len() > 0 && r >= pool[0].validator.stake {
        lemma_winner_nonneg(pool.drop_first(), r - pool[0].validator.stake);
    }
}

pub proof fn lemma_total_stake_nonneg(pool: Seq<BlockView>)
    ensures
        total_stake(pool) >= 0,
    decreases pool.len(),
{
    if pool.len() > 0 {
        lemma_total_stake_nonneg(pool.drop_last());
    }
}

/// Summing one more candidate extends the prefix sum.
pub proof fn lemma_cum_step(pool: Seq<BlockView>, i: int)
    requires
        0 <= i < pool.len(),
    ensures
        cum_stake(pool, i + 1) == cum_stake(pool, i) + pool[i].validator.stake,
{
    assert(pool.take(i + 1).drop_last() =~= pool.take(i));
    assert(pool.take(i + 1).last() == pool[i]);
}

/// Prefix sums never exceed the total.
pub proof fn lemma_cum_le_total(pool: Seq<BlockView>, i: int)
    requires
        0 <= i <= pool.len(),
    ensures
        cum_stake(pool, i) <= total_stake(pool),
        cum_stake(pool, i) >= 0,
    decreases pool.len() - i,
{
    lemma_total_stake_nonneg(pool.take(i));
    if i < pool.len() {
        lemma_cum_step(pool, i);
        lemma_cum_le_total(pool, i + 1);
    } else {
        assert(pool.take(i) =~= pool);
    }
}

/// Dropping the first candidate shifts prefix sums by its stake.
proof fn lemma_cum_shift(pool: Seq<BlockView>, i: int)
    requires
        1 <= i <= pool.len(),
    ensures
        cum_stake(pool, i) == pool[0].validator.stake + cum_stake(pool.drop_first(), i - 1),
    decreases i,
{
    if i == 1 {
        assert(pool.take(1).drop_last() =~= Seq::<BlockView>::empty());
        assert(total_stake(Seq::<BlockView>::empty()) == 0);
        assert(pool.take(1).last() == pool[0]);
        assert(pool.drop_first().take(0) =~= Seq::<BlockView>::empty());
    } else {
        lemma_cum_shift(pool, i - 1);
        lemma_cum_step(pool, i - 1);
        lemma_cum_step(pool.drop_first(), i - 2);
        assert(pool.drop_first()[i - 2] == pool[i - 1]);
    }
}

/// The selection law: draw `r` falls to candidate `i` exactly when `r` lies
/// in the stake-wide window that candidate `i` owns. Every candidate
/// therefore owns exactly as many winning draws as its stake, so a uniform
/// draw wins for it with probability proportional to its stake.
pub proof fn lemma_winner_window(pool: Seq<BlockView>, r: int, i: int)
    requires
        0 <= r < total_stake(pool),
        0 <= i < pool.len(),
    ensures
        winner_index(pool, r) == i <==> cum_stake(pool, i) <= r < cum_stake(pool, i)
            + pool[i].validator.stake,
    decreases pool.len(),
{
    assert(pool.take(0) =~= Seq::<BlockView>::empty());
    assert(cum_stake(pool, 0) == 0);
    let rest = pool.drop_first();
    let s0 = pool[0].validator.stake;
    assert(total_stake(pool) == s0 + total_stake(rest)) by {
        lemma_cum_shift(pool, pool.len() as int);
        assert(pool.take(pool.len() as int) =~= pool);
        assert(rest.take(pool.len() - 1) =~= rest);
    }
    if i == 0 {
        lemma_winner_nonneg(rest, r - s0);
        assert(winner_index(pool, r) == 0 <==> r < s0);
        assert(cum_stake(pool, 1) == s0) by {
            lemma_cum_step(pool, 0);
        }
        assert((cum_stake(pool, 0) <= r < cum_stake(pool, 0) + pool[0].validator.stake) <==> r
            < s0);
    } else {
        lemma_cum_shift(pool, i);
        lemma_cum_shift(pool, i + 1);
        lemma_cum_step(pool, i);
        if r < s0 {
            // candidate 0 wins, and r sits below candidate i's window
            assert(winner_index(pool, r) == 0);
            assert(cum_stake(pool, i) >= s0) by {
                lemma_cum_le_total(rest, i - 1);
            }
            assert(!(cum_stake(pool, i) <= r));
        } else {
            lemma_winner_window(rest, r - s0, i - 1);
            lemma_cum_step(rest, i - 1);
            assert(rest[i - 1] == pool[i]);
            assert(winner_index(pool, r) == 1 + winner_index(rest, r - s0));
            assert(cum_stake(pool, i) == s0 + cum_stake(rest, i - 1));
            assert(winner_index(rest, r - s0) == i - 1 <==> cum_stake(rest, i - 1) <= r - s0
                < cum_stake(rest, i - 1) + rest[i - 1].validator.stake);
        }
    }
}

/// A draw below the total always falls inside some candidate's window.
pub proof fn lemma_winner_in_range(pool: Seq<BlockView>, r: int)
    requires
        0 <= r < total_stake(pool),
    ensures
        0 <= winner_index(pool, r) < pool.len(),
    decreases pool.len(),
{
    if pool.len() > 0 && r >= pool[0].validator.stake {
        let rest = pool.drop_first();
        let s0 = pool[0].validator.stake;
        assert(total_stake(pool) == s0 + total_stake(rest)) by {
            lemma_cum_shift(pool, pool.len() as int);
            assert(pool.take(pool.len() as int) =~= pool);
            assert(rest.take(pool.len() - 1) =~= rest);
        }
        lemma_winner_in_range(rest, r - s0);
    }
}

/// Builds the ballot list for one lottery run: one vote per candidate, its
/// weight the proposer's stake.
pub fn build_votes(pool: &BlockChain) -> (r: Vec<Vote>)
    ensures
        r@.len() == pool@.len(),
        forall|i: int|
            0 <= i < r@.len() ==> (#[trigger] r@[i]).block@ == pool@[i] && r@[i].stake
                == pool@[i].validator.stake,
{
    let mut votes: Vec<Vote> = Vec::new();
    let n: usize = pool.blocks.len();
    let mut i: usize = 0;
    while i < n
        invariant
            i <= n,
            n == pool.blocks@.len(),
            votes@.len() == i,
            forall|j: int|
                0 <= j < i ==> (#[trigger] votes@[j]).block@ == pool@[j] && votes@[j].stake
                    == pool@[j].validator.stake,
        decreases n - i,
    {
        let b = pool.blocks[i].clone();
        let stake = b.validator.stake;
        votes.push(Vote { block: b, stake });
        i = i + 1;
    }
    votes
}

/// Selects the winner of draw `r` by walking the pool in order and
/// accumulating stake: roulette-wheel selection. A pool with no combined
/// stake is the fault `ZeroTotalStake`.
pub fn lottery_winner(pool: &BlockChain, r: u64) -> (res: Result<Block, EngineError>)
    requires
        total_stake(pool@) <= u64::MAX,
        total_stake(pool@) > 0 ==> (r as int) < total_stake(pool@),
    ensures
        match res {
            Ok(b) => total_stake(pool@) > 0 && b@ == pool@[winner_index(pool@, r as int)],
            Err(e) => e == EngineError::ZeroTotalStake && total_stake(pool@) == 0,
        },
{
    let votes = build_votes(pool);
    let n: usize = votes.len();
    let mut acc: u64 = 0;
    let mut i: usize = 0;
    proof {
        assert(pool@.take(0) =~= Seq::<BlockView>::empty());
        lemma_total_stake_nonneg(pool@);
    }
    while i < n
        invariant
            i <= n,
            n == votes@.len(),
            n == pool@.len(),
            forall|j: int|
                0 <= j < n ==> (#[trigger] votes@[j]).block@ == pool@[j] && votes@[j].stake
                    == pool@[j].validator.stake,
            acc == cum_stake(pool@, i as int),
            total_stake(pool@) <= u64::MAX,
            total_stake(pool@) > 0 ==> (r as int) < total_stake(pool@),
            (r as int) >= acc || total_stake(pool@) == 0,
        decreases n - i,
    {
        proof {
            lemma_cum_step(pool@, i as int);
            lemma_cum_le_total(pool@, i + 1);
        }
        let stake = votes[i].stake;
        if draw_in_window(r, acc, stake) {
            proof {
                lemma_cum_le_total(pool@, i as int);
                assert(total_stake(pool@) > 0);
                lemma_winner_window(pool@, r as int, i as int);
            }
            return Ok(votes[i].block.clone());
        }
        acc = acc + stake;
        i = i + 1;
    }
    proof {
        assert(pool@.take(n as int) =~= pool@);
        if total_stake(pool@) > 0 {
            // the walk cannot fall off the end of a positive-stake pool
            assert((r as int) >= total_stake(pool@));
            assert(false);
        }
    }
    Err(EngineError::ZeroTotalStake)
}

/// The walk's stopping test: the draw falls inside the current candidate's
/// window.
fn draw_in_window(r: u64, acc: u64, stake: u64) -> (b: bool)
    requires
        acc + stake <= u64::MAX,
    ensures
        b == ((r as int) < acc + stake),
{
    r < acc + stake
}

} // verus!

verus! {

/// The pool's combined stake, computed by one walk.
pub fn pool_total(pool: &BlockChain) -> (r: u64)
    requires
        total_stake(pool@) <= u64::MAX,
    ensures
        r as int == total_stake(pool@),
{
    let n: usize = pool.blocks.len();
    let mut acc: u64 = 0;
    let mut i: usize = 0;
    proof {
        assert(pool@.take(0) =~= Seq::<BlockView>::empty());
    }
    while i < n
        invariant
            i <= n,
            n == pool@.len(),
            n == pool.blocks@.len(),
            acc == cum_stake(pool@, i as int),
            total_stake(pool@) <= u64::MAX,
        decreases n - i,
    {
        proof {
            lemma_cum_step(pool@, i as int);
            lemma_cum_le_total(pool@, i + 1);
        }
        acc = acc + pool.blocks[i].validator.stake;
        i = i + 1;
    }
    proof {
        assert(pool@.take(n as int) =~= pool@);
    }
    acc
}

/// Runs one lottery over the pool: sums the stakes, draws uniformly below
/// the total, and selects the winner by the roulette walk. A pool whose
/// combined stake is zero is the fault `ZeroTotalStake`.
pub fn run_lottery(pool: &BlockChain) -> (res: Result<Block, EngineError>)
    requires
        total_stake(pool@) <= u64::MAX,
    ensures
        match res {
            Ok(b) => total_stake(pool@) > 0 && exists|d: int|
                #![trigger winner_index(pool@, d)]
                0 <= d < total_stake(pool@) && b@ == pool@[winner_index(pool@, d)],
            Err(e) => e == EngineError::ZeroTotalStake && total_stake(pool@) == 0,
        },
{
    let total = pool_total(pool);
    if total == 0 {
        return Err(EngineError::ZeroTotalStake);
    }
    let draw = crate::randomness::draw_below(total);
    let res = lottery_winner(pool, draw);
    proof {
        if res is Ok {
            assert((draw as int) < total_stake(pool@));
        }
    }
    res
}

} // verus!
