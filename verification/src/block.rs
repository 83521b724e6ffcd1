//! The block model: immutable, content-addressed blocks and their
//! hash-chaining rules.

use vstd::prelude::*;
use crate::digits::{dec, u64_to_string};
use crate::hashing::{hash_input, spec_hash_input};
use crate::clock::chrono_timestamp;

verus! {

/// A lottery participant: an address and its stake. Only the genesis
/// sentinel validator carries stake zero.
pub struct Validator {
    pub address: String,
    pub stake: u64,
}

impl Clone for Validator {
    fn clone(&self) -> (r: Validator)
        ensures
            r == *self,
    {
        Validator { address: self.address.clone(), stake: self.stake }
    }
}

pub ghost struct ValidatorView {
    pub address: Seq<char>,
    pub stake: u64,
}

impl View for Validator {
    type V = ValidatorView;

    open spec fn view(&self) -> ValidatorView {
        ValidatorView { address: self.address@, stake: self.stake }
    }
}

/// One block: height, creation time (Unix seconds, in decimal), payload
/// (`bpm`), its own content hash, the hash of its predecessor (absent only
/// at genesis), and the validator that proposed it.
pub struct Block {
    pub index: u64,
    pub timestamp: String,
    pub bpm: String,
    pub hash: String,
    pub prev_hash: Option<String>,
    pub validator: Validator,
}

pub ghost struct BlockView {
    pub index: u64,
    pub timestamp: Seq<char>,
    pub bpm: Seq<char>,
    pub hash: Seq<char>,
    pub prev_hash: Option<Seq<char>>,
    pub validator: ValidatorView,
}

impl Clone for Block {
    fn clone(&self) -> (r: Block)
        ensures
            r == *self,
    {
        Block {
            index: self.index,
            timestamp: self.timestamp.clone(),
            bpm: self.bpm.clone(),
            hash: self.hash.clone(),
            prev_hash: match &self.prev_hash {
                Some(p) => Some(p.clone()),
                None => None,
            },
            validator: self.validator.clone(),
        }
    }
}

impl View for Block {
    type V = BlockView;

    open spec fn view(&self) -> BlockView {
        BlockView {
            index: self.index,
            timestamp: self.timestamp@,
            bpm: self.bpm@,
            hash: self.hash@,
            prev_hash: match self.prev_hash {
                Some(ref p) => Some(p@),
                None => None,
            },
            validator: self.validator@,
        }
    }
}

/// The hash preimage of a block's content: index, timestamp, payload, and
/// the predecessor hash — the word `genesis` where there is none —
/// concatenated in that order.
pub open spec fn hash_preimage(
    index: u64,
    timestamp: Seq<char>,
    bpm: Seq<char>,
    prev_hash: Option<Seq<char>>,
) -> Seq<char> {
    dec(index as nat) + timestamp + bpm + (match prev_hash {
        Some(p) => p,
        None => "genesis"@,
    })
}

/// The content hash of a block built from the given fields.
pub open spec fn content_hash(
    index: u64,
    timestamp: Seq<char>,
    bpm: Seq<char>,
    prev_hash: Option<Seq<char>>,
) -> Seq<char> {
    spec_hash_input(hash_preimage(index, timestamp, bpm, prev_hash))
}

/// A well-formed block: its stored hash is its content hash, and the missing
/// predecessor hash marks exactly the genesis height.
pub open spec fn wf_block(b: BlockView) -> bool {
    &&& b.hash == content_hash(b.index, b.timestamp, b.bpm, b.prev_hash)
    &&& (b.prev_hash is None <==> b.index == 0)
}

/// What `Block::validate` decides: the candidate sits one above `prev`,
/// links to it (only a height-zero candidate may carry no link), and its
/// stored hash is the hash of its own content.
pub open spec fn spec_validate(candidate: BlockView, prev: BlockView) -> bool {
    &&& candidate.index == prev.index + 1
    &&& (candidate.prev_hash == Some(prev.hash) || (candidate.prev_hash is None
        && candidate.index == 0))
    &&& candidate.hash == content_hash(
        candidate.index,
        candidate.timestamp,
        candidate.bpm,
        candidate.prev_hash,
    )
}

pub open spec fn opt_string_view(o: Option<&String>) -> Option<Seq<char>> {
    match o {
        Some(p) => Some(p@),
        None => None,
    }
}

impl Block {
    /// Recomputes the content hash from this block's own fields.
    pub fn block_hash_from_instance(&self) -> (r: String)
        ensures
            r@ == content_hash(self.index, self@.timestamp, self@.bpm, self@.prev_hash),
    {
        Block::block_hash_from_params(
            self.index,
            self.timestamp.as_str(),
            self.bpm.clone(),
            self.prev_hash.as_ref(),
        )
    }

    /// The content hash of a block built from the given fields.
    pub fn block_hash_from_params(
        index: u64,
        timestamp: &str,
        bpm: String,
        prev_hash: Option<&String>,
    ) -> (r: String)
        ensures
            r@ == content_hash(index, timestamp@, bpm@, opt_string_view(prev_hash)),
    {
        let mut input = u64_to_string(index);
        input.append(timestamp);
        input.append(bpm.as_str());
        match prev_hash {
            Some(p) => input.append(p.as_str()),
            None => input.append("genesis"),
        }
        hash_input(input.as_str())
    }

    /// Builds a block from its fields, computing the content hash once.
    pub fn new(
        index: u64,
        timestamp: &str,
        bpm: String,
        prev_hash: Option<&String>,
        validator: Validator,
    ) -> (r: Block)
        ensures
            r.index == index,
            r@.timestamp == timestamp@,
            r@.bpm == bpm@,
            r@.prev_hash == opt_string_view(prev_hash),
            r@.validator == validator@,
            r@.hash == content_hash(index, timestamp@, bpm@, opt_string_view(prev_hash)),
    {
        let hash = Block::block_hash_from_params(index, timestamp, bpm.clone(), prev_hash);
        let prev_owned: Option<String> = match prev_hash {
            Some(p) => Some(p.clone()),
            None => None,
        };
        Block { index, timestamp: timestamp.to_owned(), bpm, hash, prev_hash: prev_owned, validator }
    }

    /// The child of `prev_block`: one height above, linked by hash, stamped
    /// with the current time.
    pub fn generate(prev_block: Block, bpm: String, validator: Validator) -> (r: Block)
        requires
            prev_block.index < u64::MAX,
        ensures
            r.index == prev_block.index + 1,
            r@.prev_hash == Some(prev_block@.hash),
            r@.bpm == bpm@,
            r@.validator == validator@,
            r@.hash == content_hash(r.index, r@.timestamp, bpm@, Some(prev_block@.hash)),
            wf_block(r@),
    {
        let timestamp = chrono_timestamp();
        Block::new(
            prev_block.index + 1,
            timestamp.as_str(),
            bpm,
            Some(&prev_block.hash),
            validator,
        )
    }

    /// Decides whether `block` validly extends `prev_block`; pure, never
    /// fails.
    pub fn validate(block: Block, prev_block: Block) -> (r: bool)
        ensures
            r == spec_validate(block@, prev_block@),
    {
        if prev_block.index == u64::MAX || block.index != prev_block.index + 1 {
            return false;
        }
        let link_ok = match &block.prev_hash {
            Some(p) => *p == prev_block.hash,
            None => block.index == 0,
        };
        if !link_ok {
            return false;
        }
        let recomputed = block.block_hash_from_instance();
        recomputed == block.hash
    }
}

/// The genesis block: height zero, sentinel payload and validator, no
/// predecessor.
pub fn genesis_block() -> (r: Block)
    ensures
        r.index == 0,
        r@.prev_hash is None,
        r@.bpm == "0"@,
        r@.validator.address == "0x00"@,
        r@.validator.stake == 0,
        r@.hash == content_hash(0, r@.timestamp, "0"@, None),
        wf_block(r@),
{
    let timestamp = chrono_timestamp();
    Block::new(
        0,
        timestamp.as_str(),
        "0".to_owned(),
        None,
        Validator { address: "0x00".to_owned(), stake: 0 },
    )
}

/// Validating the freshly generated child of any block succeeds: the child
/// sits one above its parent, links to it, and carries its own content hash.
pub proof fn lemma_validate_child(child: BlockView, prev: BlockView)
    requires
        child.index == prev.index + 1,
        child.prev_hash == Some(prev.hash),
        child.hash == content_hash(child.index, child.timestamp, child.bpm, child.prev_hash),
    ensures
        spec_validate(child, prev),
{
}

/// An ordered pool of blocks.
pub struct BlockChain {
    pub blocks: Vec<Block>,
}

impl View for BlockChain {
    type V = Seq<BlockView>;

    open spec fn view(&self) -> Seq<BlockView> {
        self.blocks@.map_values(|b: Block| b@)
    }
}

impl BlockChain {
    /// Appends a block to the pool, keeping the order of submission.
    pub fn add_block(&mut self, block: Block)
        ensures
            final(self)@ == old(self)@.push(block@),
    {
        self.blocks.push(block);
        proof {
            assert(final(self)@ =~= old(self)@.push(block@));
        }
    }
}

/// One ballot of the lottery: a candidate block and the weight it enters
/// with, which is its proposer's stake.
pub struct Vote {
    pub block: Block,
    pub stake: u64,
}

} // verus!

verus! {

/// Tampering that validation always catches, whatever the hash function
/// does: a candidate whose height or link disagrees with its parent never
/// validates, nor one whose stored hash differs from its recomputed
/// content hash.
pub proof fn lemma_validate_rejects(c: BlockView, prev: BlockView)
    ensures
        c.index != prev.index + 1 ==> !spec_validate(c, prev),
        (c.index == prev.index + 1 && c.prev_hash != Some(prev.hash)) ==> !spec_validate(
            c,
            prev,
        ),
        c.hash != content_hash(c.index, c.timestamp, c.bpm, c.prev_hash) ==> !spec_validate(
            c,
            prev,
        ),
{
}

} // verus!
