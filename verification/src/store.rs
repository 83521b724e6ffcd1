//! The two persisted stores of the ledger, modelled in memory: the
//! write-once canonical chain, keyed by height, and the per-height candidate
//! pools that grow by appending. Later entries of the backing list win, so
//! no well-formedness condition is needed on the lists themselves.

use vstd::prelude::*;
use crate::block::{Block, BlockView, BlockChain};
use crate::errors::EngineError;

verus! {

/// The canonical block stored at `h`, if any: the latest entry with that
/// height wins.
pub open spec fn blocks_lookup(s: Seq<(u64, Block)>, h: u64) -> Option<BlockView>
    decreases s.len(),
{
    if s.len() == 0 {
        None
    } else if s.last().0 == h {
        Some(s.last().1@)
    } else {
        blocks_lookup(s.drop_last(), h)
    }
}

/// The candidate pool stored at `h`: empty where no entry exists.
pub open spec fn pools_lookup(s: Seq<(u64, BlockChain)>, h: u64) -> Seq<BlockView>
    decreases s.len(),
{
    if s.len() == 0 {
        Seq::<BlockView>::empty()
    } else if s.last().0 == h {
        s.last().1@
    } else {
        pools_lookup(s.drop_last(), h)
    }
}

proof fn lemma_blocks_lookup_none(s: Seq<(u64, Block)>, h: u64)
    requires
        forall|j: int| 0 <= j < s.len() ==> (#[trigger] s[j]).0 != h,
    ensures
        blocks_lookup(s, h) is None,
    decreases s.len(),
{
    if s.len() > 0 {
        lemma_blocks_lookup_none(s.drop_last(), h);
    }
}

impl Clone for BlockChain {
    /// Clones the pool block by block.
    fn clone(&self) -> (r: BlockChain)
        ensures
            r.blocks@ == self.blocks@,
            r@ == self@,
    {
        let mut blocks: Vec<Block> = Vec::new();
        let n: usize = self.blocks.len();
        let mut i: usize = 0;
        while i < n
            invariant
                i <= n,
                n == self.blocks@.len(),
                blocks@ == self.blocks@.take(i as int),
            decreases n - i,
        {
            blocks.push(self.blocks[i].clone());
            proof {
                assert(blocks@ =~= self.blocks@.take(i + 1));
            }
            i = i + 1;
        }
        proof {
            assert(self.blocks@.take(n as int) =~= self.blocks@);
            assert(blocks@.map_values(|b: Block| b@) =~= self.blocks@.map_values(
                |b: Block| b@,
            ));
        }
        BlockChain { blocks }
    }
}

/// One persisted store: the same type backs both tables of the ledger, so
/// a value of it can play the canonical role (`commit`, `at`) or the
/// candidate role (`submit`, `pool_at`).
pub struct Storage {
    blocks: Vec<(u64, Block)>,
    candidates: Vec<(u64, BlockChain)>,
}

impl Storage {
    pub closed spec fn spec_blocks(&self) -> Seq<(u64, Block)> {
        self.blocks@
    }

    pub closed spec fn spec_candidates(&self) -> Seq<(u64, BlockChain)> {
        self.candidates@
    }

    /// An empty store, as schema creation leaves it.
    pub fn new() -> (r: Storage)
        ensures
            r.spec_blocks().len() == 0,
            r.spec_candidates().len() == 0,
    {
        Storage { blocks: Vec::new(), candidates: Vec::new() }
    }

    /// Commits `block` at `height`, write-once: a populated height is never
    /// overwritten and reports `DuplicateHeight` instead.
    pub fn commit(&mut self, height: u64, block: Block) -> (r: Result<(), EngineError>)
        ensures
            match r {
                Ok(()) => {
                    &&& blocks_lookup(old(self).spec_blocks(), height) is None
                    &&& final(self).spec_blocks() == old(self).spec_blocks().push((height, block))
                    &&& final(self).spec_candidates() == old(self).spec_candidates()
                },
                Err(e) => {
                    &&& e == EngineError::DuplicateHeight
                    &&& blocks_lookup(old(self).spec_blocks(), height) is Some
                    &&& *final(self) == *old(self)
                },
            },
    {
        let n: usize = self.blocks.len();
        let mut i: usize = 0;
        while i < n
            invariant
                i <= n,
                n == self.blocks@.len(),
                forall|j: int| 0 <= j < i ==> (#[trigger] self.blocks@[j]).0 != height,
            decreases n - i,
        {
            if self.blocks[i].0 == height {
                proof {
                    lemma_blocks_lookup_some(self.blocks@, height, i as int);
                }
                return Err(EngineError::DuplicateHeight);
            }
            i = i + 1;
        }
        proof {
            lemma_blocks_lookup_none(self.blocks@, height);
        }
        self.blocks.push((height, block));
        Ok(())
    }

    /// Reads the canonical block at `height`; a missing height is the
    /// consistency fault `MissingHeight`.
    pub fn at(&self, height: u64) -> (r: Result<Block, EngineError>)
        ensures
            match r {
                Ok(b) => blocks_lookup(self.spec_blocks(), height) == Some(b@),
                Err(e) => {
                    &&& e == EngineError::MissingHeight
                    &&& blocks_lookup(self.spec_blocks(), height) is None
                },
            },
    {
        let n: usize = self.blocks.len();
        proof {
            assert(self.blocks@.take(n as int) =~= self.blocks@);
        }
        let mut i: usize = n;
        while i > 0
            invariant
                i <= n,
                n == self.blocks@.len(),
                blocks_lookup(self.blocks@, height) == blocks_lookup(
                    self.blocks@.take(i as int),
                    height,
                ),
            decreases i,
        {
            proof {
                assert(self.blocks@.take(i as int).drop_last() =~= self.blocks@.take(i - 1));
                assert(self.blocks@.take(i as int).last() == self.blocks@[i - 1]);
            }
            if self.blocks[i - 1].0 == height {
                return Ok(self.blocks[i - 1].1.clone());
            }
            i = i - 1;
        }
        proof {
            assert(self.blocks@.take(0) =~= Seq::<(u64, Block)>::empty());
        }
        Err(EngineError::MissingHeight)
    }

    /// Appends `block` to the candidate pool at `height`:
    /// read-modify-write, creating the pool where none exists yet.
    pub fn submit(&mut self, height: u64, block: Block)
        ensures
            pools_lookup(final(self).spec_candidates(), height) == pools_lookup(
                old(self).spec_candidates(),
                height,
            ).push(block@),
            forall|h2: u64|
                h2 != height ==> pools_lookup(final(self).spec_candidates(), h2) == pools_lookup(
                    old(self).spec_candidates(),
                    h2,
                ),
            final(self).spec_blocks() == old(self).spec_blocks(),
    {
        let mut pool = self.pool_at(height);
        pool.add_block(block);
        self.candidates.push((height, pool));
        proof {
            assert forall|h2: u64|
                h2 != height implies pools_lookup(final(self).spec_candidates(), h2)
                == pools_lookup(old(self).spec_candidates(), h2) by {
                assert(final(self).spec_candidates().drop_last() =~= old(
                    self,
                ).spec_candidates());
            }
            assert(final(self).spec_candidates().drop_last() =~= old(self).spec_candidates());
        }
    }

    /// Reads the candidate pool at `height`; empty where none exists, never
    /// an error.
    pub fn pool_at(&self, height: u64) -> (r: BlockChain)
        ensures
            r@ == pools_lookup(self.spec_candidates(), height),
    {
        let n: usize = self.candidates.len();
        proof {
            assert(self.candidates@.take(n as int) =~= self.candidates@);
        }
        let mut i: usize = n;
        while i > 0
            invariant
                i <= n,
                n == self.candidates@.len(),
                pools_lookup(self.candidates@, height) == pools_lookup(
                    self.candidates@.take(i as int),
                    height,
                ),
            decreases i,
        {
            proof {
                assert(self.candidates@.take(i as int).drop_last() =~= self.candidates@.take(
                    i - 1,
                ));
                assert(self.candidates@.take(i as int).last() == self.candidates@[i - 1]);
            }
            if self.candidates[i - 1].0 == height {
                return self.candidates[i - 1].1.clone();
            }
            i = i - 1;
        }
        proof {
            assert(self.candidates@.take(0) =~= Seq::<(u64, BlockChain)>::empty());
        }
        let empty = BlockChain { blocks: Vec::new() };
        proof {
            assert(empty@ =~= Seq::<BlockView>::empty());
        }
        empty
    }
}

proof fn lemma_blocks_lookup_some(s: Seq<(u64, Block)>, h: u64, i: int)
    requires
        0 <= i < s.len(),
        s[i].0 == h,
    ensures
        blocks_lookup(s, h) is Some,
    decreases s.len(),
{
    if s.last().0 != h {
        lemma_blocks_lookup_some(s.drop_last(), h, i);
    }
}

} // verus!

verus! {

/// Write-once law, lookup side: after a commit at `h`, the chain holds
/// exactly the committed block at `h` and every other height is untouched.
/// Together with `Storage::commit`'s contract — a second commit at `h`
/// fails with `DuplicateHeight` and changes nothing — this is the
/// canonical store's whole story.
pub proof fn lemma_push_lookup(s: Seq<(u64, Block)>, h: u64, b: Block, h2: u64)
    ensures
        blocks_lookup(s.push((h, b)), h) == Some(b@),
        h2 != h ==> blocks_lookup(s.push((h, b)), h2) == blocks_lookup(s, h2),
{
    assert(s.push((h, b)).drop_last() =~= s);
}

/// Creates the canonical store's schema and inserts the genesis block at
/// height zero. Idempotent in effect: a store that already holds height
/// zero is left unchanged and the duplicate is reported.
pub fn initialize_blockstore_with_genesis(storage: &mut Storage) -> (r: Result<
    (),
    EngineError,
>)
    ensures
        match r {
            Ok(()) => {
                &&& blocks_lookup(old(storage).spec_blocks(), 0) is None
                &&& (exists|g: Block|
                    (#[trigger] g@).index == 0 && g@.prev_hash is None
                        && crate::block::wf_block(g@) && final(storage).spec_blocks() == old(
                        storage,
                    ).spec_blocks().push((0u64, g)))
                &&& final(storage).spec_candidates() == old(storage).spec_candidates()
            },
            Err(e) => {
                &&& e == EngineError::DuplicateHeight
                &&& blocks_lookup(old(storage).spec_blocks(), 0) is Some
                &&& *final(storage) == *old(storage)
            },
        },
{
    let genesis = crate::block::genesis_block();
    let ghost g: Block = genesis;
    let r = storage.commit(0, genesis);
    proof {
        if r is Ok {
            assert(g@.index == 0 && g@.prev_hash is None && crate::block::wf_block(g@)
                && storage.spec_blocks() == old(storage).spec_blocks().push((0u64, g)));
        }
    }
    r
}

/// Creates the candidate store's schema. The in-memory store needs no
/// schema, so this is the idempotent no-op that a second `createSchema`
/// call is on disk.
pub fn initialize_candidatestore(storage: &mut Storage)
    ensures
        *final(storage) == *old(storage),
{
}

/// Reads the canonical block at `height`, for callers that know it exists;
/// under the protocol's invariants every height below the current one does.
pub fn get_block_with_height(storage: &Storage, height: &u64) -> (r: Block)
    requires
        blocks_lookup(storage.spec_blocks(), *height) is Some,
    ensures
        Some(r@) == blocks_lookup(storage.spec_blocks(), *height),
{
    match storage.at(*height) {
        Ok(b) => b,
        Err(_) => unreached(),
    }
}

/// Reads the candidate pool at `height`: the empty pool where none exists.
pub fn get_candidate_pool(storage: &Storage, height: &u64) -> (r: BlockChain)
    ensures
        r@ == pools_lookup(storage.spec_candidates(), *height),
{
    storage.pool_at(*height)
}

} // verus!
