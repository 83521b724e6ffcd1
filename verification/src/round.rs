//! The round orchestrator: one explicit tick of the state machine
//! wait -> propose -> select -> commit, callable from tests with an
//! injected clock.

use vstd::prelude::*;
use crate::block::{Block, BlockView, Validator, ValidatorView, content_hash};
use crate::store::{Storage, blocks_lookup, pools_lookup};
use crate::lottery::{total_stake, winner_index, run_lottery};
use crate::errors::EngineError;
use crate::digits::{dec, u64_to_string, parse_u64_str};
use crate::hashing::{hash_input, spec_hash_input};

verus! {

/// The transient state the orchestrator carries between rounds: the height
/// the current round will commit to, and which validators of the registry
/// have proposed in it.
pub struct RoundState {
    pub height: u64,
    pub participants: Vec<bool>,
}

fn vec_false(n: usize) -> (r: Vec<bool>)
    ensures
        r@.len() == n,
        forall|i: int| 0 <= i < n ==> !(#[trigger] r@[i]),
{
    let mut v: Vec<bool> = Vec::new();
    let mut i: usize = 0;
    while i < n
        invariant
            i <= n,
            v@.len() == i,
            forall|j: int| 0 <= j < i ==> !(#[trigger] v@[j]),
        decreases n - i,
    {
        v.push(false);
        i = i + 1;
    }
    v
}

impl RoundState {
    /// Fresh state for the first round after genesis: height one, nobody
    /// has proposed.
    pub fn new(n_validators: usize) -> (r: RoundState)
        ensures
            r.height == 1,
            r.participants@.len() == n_validators,
            forall|i: int| 0 <= i < n_validators ==> !(#[trigger] r.participants@[i]),
    {
        RoundState { height: 1, participants: vec_false(n_validators) }
    }
}

/// What one tick of the round loop did.
#[derive(Debug, PartialEq, Eq, Structural, Clone, Copy)]
pub enum TickOutcome {
    /// The block time since the previous block has not elapsed.
    Waiting,
    /// The proposal window was still empty at the pool check; the round
    /// goes on at the same height with its participant set kept.
    PoolEmpty,
    /// A winner was committed; the round advanced to the next height.
    Committed,
}

/// The child block a validator proposes at `now` on top of `prev`: its
/// timestamp is `now` in decimal and its payload the hash of that text.
pub open spec fn child_view(prev: BlockView, now: u64, v: ValidatorView) -> BlockView
    recommends
        prev.index < u64::MAX,
{
    BlockView {
        index: (prev.index + 1) as u64,
        timestamp: dec(now as nat),
        bpm: spec_hash_input(dec(now as nat)),
        hash: content_hash(
            (prev.index + 1) as u64,
            dec(now as nat),
            spec_hash_input(dec(now as nat)),
            Some(prev.hash),
        ),
        prev_hash: Some(prev.hash),
        validator: v,
    }
}

/// The blocks the proposal phase appends: one child per validator that has
/// not proposed yet, in registry order.
pub open spec fn proposals(
    reg: Seq<ValidatorView>,
    done: Seq<bool>,
    prev: BlockView,
    now: u64,
) -> Seq<BlockView>
    recommends
        done.len() == reg.len(),
    decreases reg.len(),
{
    if reg.len() == 0 {
        Seq::<BlockView>::empty()
    } else {
        proposals(reg.drop_last(), done.drop_last(), prev, now) + (if done[reg.len() - 1] {
            Seq::<BlockView>::empty()
        } else {
            seq![child_view(prev, now, reg.last())]
        })
    }
}

proof fn lemma_proposals_step(
    reg: Seq<ValidatorView>,
    done: Seq<bool>,
    prev: BlockView,
    now: u64,
    i: int,
)
    requires
        done.len() == reg.len(),
        0 <= i < reg.len(),
    ensures
        proposals(reg.take(i + 1), done.take(i + 1), prev, now) == proposals(
            reg.take(i),
            done.take(i),
            prev,
            now,
        ) + (if done[i] {
            Seq::<BlockView>::empty()
        } else {
            seq![child_view(prev, now, reg[i])]
        }),
{
    assert(reg.take(i + 1).drop_last() =~= reg.take(i));
    assert(done.take(i + 1).drop_last() =~= done.take(i));
    assert(reg.take(i + 1).last() == reg[i]);
    assert(done.take(i + 1)[i] == done[i]);
}

pub open spec fn reg_views(reg: Seq<Validator>) -> Seq<ValidatorView> {
    reg.map_values(|v: Validator| v@)
}

/// One tick of the round state machine, driven by an injected clock `now`
/// (Unix seconds). Reads the previous canonical block, gates on the block
/// time, lets every validator that has not proposed this round submit one
/// child, and — if the pool held candidates before this tick's proposals —
/// runs the lottery and commits the winner, advancing the height.
#[verifier::rlimit(100)]
#[verifier::spinoff_prover]
pub fn tick(
    state: &mut RoundState,
    registry: &Vec<Validator>,
    storage: &mut Storage,
    blocktime: u64,
    now: u64,
) -> (r: Result<TickOutcome, EngineError>)
    requires
        1 <= old(state).height < u64::MAX,
        old(state).participants@.len() == registry@.len(),
        match blocks_lookup(old(storage).spec_blocks(), (old(state).height - 1) as u64) {
            Some(prev) => prev.index < u64::MAX,
            None => true,
        },
        total_stake(pools_lookup(old(storage).spec_candidates(), old(state).height))
            <= u64::MAX,
    ensures
        final(state).participants@.len() == registry@.len(),
        ({
            let h = old(state).height;
            let prev_opt = blocks_lookup(old(storage).spec_blocks(), (h - 1) as u64);
            let pool0 = pools_lookup(old(storage).spec_candidates(), h);
            let reg = reg_views(registry@);
            let props = proposals(
                reg,
                old(state).participants@,
                match prev_opt {
                    Some(p) => p,
                    None => arbitrary(),
                },
                now,
            );
            let proposed = {
                &&& pools_lookup(final(storage).spec_candidates(), h) == pool0 + props
                &&& forall|h2: u64|
                    h2 != h ==> pools_lookup(final(storage).spec_candidates(), h2)
                        == pools_lookup(old(storage).spec_candidates(), h2)
            };
            let marked = forall|i: int|
                0 <= i < reg.len() ==> #[trigger] final(state).participants@[i];
            match r {
                Err(EngineError::MissingHeight) => {
                    &&& prev_opt is None
                    &&& *final(state) == *old(state)
                    &&& *final(storage) == *old(storage)
                },
                Err(EngineError::SerializationError) => {
                    &&& prev_opt matches Some(prev)
                    &&& (forall|t: u64| prev.timestamp != dec(t as nat))
                    &&& *final(state) == *old(state)
                    &&& *final(storage) == *old(storage)
                },
                Ok(TickOutcome::Waiting) => {
                    &&& prev_opt matches Some(prev)
                    &&& (exists|t: u64|
                        prev.timestamp == dec(t as nat) && (now as int) <= t + blocktime)
                    &&& *final(state) == *old(state)
                    &&& *final(storage) == *old(storage)
                },
                Ok(TickOutcome::PoolEmpty) => {
                    &&& pool0.len() == 0
                    &&& proposed
                    &&& marked
                    &&& final(storage).spec_blocks() == old(storage).spec_blocks()
                    &&& final(state).height == h
                },
                Ok(TickOutcome::Committed) => {
                    &&& pool0.len() > 0
                    &&& total_stake(pool0) > 0
                    &&& (exists|d: int, w: Block|
                        #![trigger w@, winner_index(pool0, d)]
                        0 <= d < total_stake(pool0) && w@ == pool0[winner_index(pool0, d)]
                            && final(storage).spec_blocks() == old(storage).spec_blocks().push(
                            (h, w),
                        ))
                    &&& blocks_lookup(old(storage).spec_blocks(), h) is None
                    &&& proposed
                    &&& final(state).height == h + 1
                    &&& forall|i: int|
                        0 <= i < reg.len() ==> !(#[trigger] final(state).participants@[i])
                },
                Err(EngineError::DuplicateHeight) => {
                    &&& pool0.len() > 0
                    &&& blocks_lookup(old(storage).spec_blocks(), h) is Some
                    &&& proposed
                    &&& marked
                    &&& final(storage).spec_blocks() == old(storage).spec_blocks()
                    &&& final(state).height == h
                },
                Err(EngineError::ZeroTotalStake) => {
                    &&& pool0.len() > 0
                    &&& total_stake(pool0) == 0
                    &&& proposed
                    &&& marked
                    &&& final(storage).spec_blocks() == old(storage).spec_blocks()
                    &&& final(state).height == h
                },
                _ => false,
            }
        }),
{
    let h = state.height;
    // WAITING: read the previous canonical block and gate on block time.
    let prev = match storage.at(h - 1) {
        Ok(b) => b,
        Err(_) => {
            return Err(EngineError::MissingHeight);
        },
    };
    let prev_ts = match parse_u64_str(prev.timestamp.as_str()) {
        Some(t) => t,
        None => {
            return Err(EngineError::SerializationError);
        },
    };
    if (now as u128) <= (prev_ts as u128) + (blocktime as u128) {
        return Ok(TickOutcome::Waiting);
    }
    // the pool as it stood when the window was judged: this tick's own
    // proposals only count in the next round's check
    let pool = storage.pool_at(h);
    // PROPOSING: every validator not yet recorded submits one child.
    let ts_str = u64_to_string(now);
    let payload = hash_input(ts_str.as_str());
    let ghost reg = reg_views(registry@);
    let ghost parts0 = state.participants@;
    let ghost pool0 = pool@;
    let ghost prev_v = prev@;
    let n: usize = registry.len();
    let mut i: usize = 0;
    proof {
        assert(reg.take(0) =~= Seq::<ValidatorView>::empty());
        assert(parts0.take(0) =~= Seq::<bool>::empty());
        assert(pool0 + proposals(reg.take(0), parts0.take(0), prev_v, now) =~= pool0);
    }
    while i < n
        invariant
            i <= n,
            n == registry@.len(),
            reg == reg_views(registry@),
            parts0.len() == n,
            state.height == h,
            state.participants@.len() == n,
            prev_v.index < u64::MAX,
            ts_str@ == dec(now as nat),
            payload@ == spec_hash_input(dec(now as nat)),
            prev@ == prev_v,
            forall|j: int| 0 <= j < i ==> #[trigger] state.participants@[j],
            forall|j: int| i <= j < n ==> state.participants@[j] == parts0[j],
            pools_lookup(storage.spec_candidates(), h) == pool0 + proposals(
                reg.take(i as int),
                parts0.take(i as int),
                prev_v,
                now,
            ),
            forall|h2: u64|
                h2 != h ==> pools_lookup(storage.spec_candidates(), h2) == pools_lookup(
                    old(storage).spec_candidates(),
                    h2,
                ),
            storage.spec_blocks() == old(storage).spec_blocks(),
        decreases n - i,
    {
        proof {
            lemma_proposals_step(reg, parts0, prev_v, now, i as int);
        }
        if !state.participants[i] {
            let b = Block::new(
                prev.index + 1,
                ts_str.as_str(),
                payload.clone(),
                Some(&prev.hash),
                registry[i].clone(),
            );
            proof {
                assert(b@ == child_view(prev_v, now, reg[i as int]));
            }
            storage.submit(h, b);
            proof {
                assert(pool0 + proposals(reg.take(i as int), parts0.take(i as int), prev_v, now)
                    + seq![child_view(prev_v, now, reg[i as int])] =~= pool0 + proposals(
                    reg.take(i + 1),
                    parts0.take(i + 1),
                    prev_v,
                    now,
                ));
                assert((pool0 + proposals(reg.take(i as int), parts0.take(i as int), prev_v, now))
                    .push(b@) =~= pool0 + proposals(reg.take(i as int), parts0.take(i as int),
                    prev_v, now) + seq![child_view(prev_v, now, reg[i as int])]);
            }
        } else {
            proof {
                assert(pool0 + proposals(reg.take(i + 1), parts0.take(i + 1), prev_v, now)
                    =~= pool0 + proposals(reg.take(i as int), parts0.take(i as int), prev_v, now));
            }
        }
        state.participants.set(i, true);
        i = i + 1;
    }
    proof {
        assert(reg.take(n as int) =~= reg);
        assert(parts0.take(n as int) =~= parts0);
    }
    // SELECTING: an empty window keeps the round open at this height.
    if pool.blocks.len() == 0 {
        return Ok(TickOutcome::PoolEmpty);
    }
    let winner = match run_lottery(&pool) {
        Ok(w) => w,
        Err(e) => {
            return Err(e);
        },
    };
    let ghost wv: Block = winner;
    // COMMITTED: write once, then advance.
    match storage.commit(h, winner) {
        Ok(()) => {},
        Err(e) => {
            return Err(e);
        },
    }
    state.height = h + 1;
    state.participants = vec_false(n);
    proof {
        let d0 = choose|d: int|
            #![trigger winner_index(pool0, d)]
            0 <= d < total_stake(pool0) && wv@ == pool0[winner_index(pool0, d)];
        crate::lottery::lemma_winner_in_range(pool0, d0);
        assert(0 <= d0 < total_stake(pool0) && wv@ == pool0[winner_index(pool0, d0)]
            && storage.spec_blocks() == old(storage).spec_blocks().push((h, wv)));
    }
    Ok(TickOutcome::Committed)
}

} // verus!

verus! {

/// Chain-integrity law: every block the proposal phase submits validly
/// extends the previous canonical block — index continuity and hash
/// linkage hold of the whole proposal batch by construction.
pub proof fn lemma_proposals_validate(
    reg: Seq<ValidatorView>,
    done: Seq<bool>,
    prev: BlockView,
    now: u64,
)
    requires
        done.len() == reg.len(),
        prev.index < u64::MAX,
    ensures
        forall|j: int|
            0 <= j < proposals(reg, done, prev, now).len() ==> crate::block::spec_validate(
                #[trigger] proposals(reg, done, prev, now)[j],
                prev,
            ),
    decreases reg.len(),
{
    if reg.len() > 0 {
        lemma_proposals_validate(reg.drop_last(), done.drop_last(), prev, now);
        let front = proposals(reg.drop_last(), done.drop_last(), prev, now);
        assert forall|j: int|
            0 <= j < proposals(reg, done, prev, now).len() implies crate::block::spec_validate(
            #[trigger] proposals(reg, done, prev, now)[j],
            prev,
        ) by {
            if j < front.len() {
                assert(proposals(reg, done, prev, now)[j] == front[j]);
            } else {
                assert(proposals(reg, done, prev, now)[j] == child_view(prev, now, reg.last()));
            }
        }
    }
}

} // verus!
