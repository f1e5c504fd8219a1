//! The chain: accepted blocks from the genesis block on, the ledger of unspent
//! outputs and the current difficulty, changed only by `add_block`.
use crate::block::{block_valid, Block};
use crate::error::BlockchainError;
use crate::pow::{hash_meets, ProofOfWork};
use crate::utxo::{apply_block_txs, Ledger, UtxoSet};
use vstd::prelude::*;

verus! {

/// Difficulty of a new chain, in leading zero bits.
pub const INITIAL_DIFFICULTY: u32 = 4;

/// Lowest difficulty that retargeting may reach.
pub const MIN_DIFFICULTY: u32 = 1;

/// Highest difficulty that retargeting may reach.
pub const MAX_DIFFICULTY: u32 = 64;

/// Seconds that a block should take.
pub const TARGET_BLOCK_INTERVAL: u64 = 60;

/// Number of most recent blocks whose timestamps retargeting looks at.
pub const RETARGET_WINDOW: usize = 10;

/// A difficulty brought into the configured range.
pub open spec fn clamp_difficulty(d: int) -> int {
    if d < MIN_DIFFICULTY {
        MIN_DIFFICULTY as int
    } else if d > MAX_DIFFICULTY {
        MAX_DIFFICULTY as int
    } else {
        d
    }
}

/// The retargeting rule: blocks that came in under half the expected time raise
/// the difficulty by one, blocks that took over twice the expected time lower it
/// by one, and the result is clamped to the configured range.
pub open spec fn retarget(current: int, elapsed: int, blocks: int) -> int {
    let expected = TARGET_BLOCK_INTERVAL * blocks;
    if elapsed < expected / 2 {
        clamp_difficulty(current + 1)
    } else if elapsed > expected * 2 {
        clamp_difficulty(current - 1)
    } else {
        clamp_difficulty(current)
    }
}

/// Position of the first block of the retargeting window in a chain of `len` blocks.
pub open spec fn window_start(len: int) -> int {
    if len > RETARGET_WINDOW {
        len - RETARGET_WINDOW
    } else {
        0
    }
}

/// The difficulty after `block` is appended to `blocks` at difficulty `current`:
/// the time from the window's first block to the new one, counted as zero when
/// the clock went backwards, over the number of blocks in between.
pub open spec fn next_difficulty_after(blocks: Seq<Block>, current: u32, block: Block) -> int {
    let s = window_start(blocks.len() as int);
    let start = blocks[s].header.timestamp;
    let now = block.header.timestamp;
    let elapsed = if now >= start { now - start } else { 0 };
    retarget(current as int, elapsed, blocks.len() - s)
}

/// Every block after the first links to the one before it and holds its own hash.
pub open spec fn chain_valid(blocks: Seq<Block>) -> bool {
    forall|i: int|
        1 <= i < blocks.len() ==> (#[trigger] blocks[i]).header.prev_block_hash@ == blocks[i
            - 1].hash@ && block_valid(blocks[i])
}

/// Why a chain in the given state refuses a candidate block, in the order the
/// checks run; `None` when it accepts it.
pub open spec fn rejection(blocks: Seq<Block>, ledger: Ledger, difficulty: u32, block: Block) -> Option<
    BlockchainError,
> {
    if blocks.len() == 0 {
        Some(BlockchainError::EmptyChain)
    } else if block.header.prev_block_hash@ != blocks.last().hash@ {
        Some(BlockchainError::InvalidBlockLink)
    } else if !hash_meets(block.hash@, difficulty as nat) {
        Some(BlockchainError::InvalidPoW)
    } else if !block_valid(block) {
        Some(BlockchainError::InvalidBlock)
    } else if apply_block_txs(ledger, block.transactions@) is None {
        Some(BlockchainError::InvalidTransaction)
    } else {
        None
    }
}

/// A candidate whose previous hash is not the tip's hash is refused for its link,
/// whatever its proof-of-work, hash or transactions.
pub proof fn lemma_link_rejection(blocks: Seq<Block>, ledger: Ledger, difficulty: u32, block: Block)
    requires
        blocks.len() > 0,
        block.header.prev_block_hash@ != blocks.last().hash@,
    ensures
        rejection(blocks, ledger, difficulty, block) == Some(BlockchainError::InvalidBlockLink),
{
}

/// Tampering shows: in a valid chain of two or more blocks, replacing the stored
/// hash of any one block by a different text, all else kept, leaves a chain that
/// is not valid.
pub proof fn lemma_changed_hash_breaks_chain(c: Seq<Block>, d: Seq<Block>, i: int)
    requires
        chain_valid(c),
        c.len() >= 2,
        0 <= i < c.len(),
        d.len() == c.len(),
        forall|j: int| 0 <= j < c.len() && j != i ==> d[j] == c[j],
        d[i].header == c[i].header,
        d[i].transactions == c[i].transactions,
        d[i].hash@ != c[i].hash@,
    ensures
        !chain_valid(d),
{
    if i >= 1 {
        assert(!block_valid(d[i]));
    } else {
        assert(d[1] == c[1]);
        assert(c[1].header.prev_block_hash@ == c[0].hash@);
    }
}

/// The next difficulty, computed as `retarget` states.
pub fn next_difficulty(current: u32, elapsed: u64, blocks: u64) -> (r: u32)
    requires
        1 <= blocks <= RETARGET_WINDOW,
    ensures
        r == retarget(current as int, elapsed as int, blocks as int),
        MIN_DIFFICULTY <= r <= MAX_DIFFICULTY,
{
    let expected = TARGET_BLOCK_INTERVAL * blocks;
    let d: u64 = if elapsed < expected / 2 {
        current as u64 + 1
    } else if elapsed > expected * 2 {
        if current == 0 {
            0
        } else {
            current as u64 - 1
        }
    } else {
        current as u64
    };
    if d < MIN_DIFFICULTY as u64 {
        MIN_DIFFICULTY
    } else if d > MAX_DIFFICULTY as u64 {
        MAX_DIFFICULTY
    } else {
        d as u32
    }
}

/// The chain of accepted blocks, the ledger, and the current difficulty.
pub struct Blockchain {
    pub blocks: Vec<Block>,
    pub utxo_set: UtxoSet,
    pub difficulty: u32,
}

impl Blockchain {
    /// The chain's own invariant: its ledger keeps unique keys.
    pub open spec fn wf(&self) -> bool {
        self.utxo_set.wf()
    }

    /// A chain holding the genesis block alone, an empty ledger, and the initial difficulty.
    pub fn new() -> (r: Self)
        ensures
            r.wf(),
            r.blocks@.len() == 1,
            r.blocks@[0].header.version == 1,
            r.blocks@[0].header.prev_block_hash@ == seq!['0'],
            r.blocks@[0].header.merkle_root@ == seq!['0'],
            r.blocks@[0].header.timestamp == 1234567890,
            r.blocks@[0].header.bits == 0x1e0ffff0,
            r.blocks@[0].header.nonce == 0,
            r.blocks@[0].transactions@.len() == 0,
            block_valid(r.blocks@[0]),
            chain_valid(r.blocks@),
            r.utxo_set@ == Ledger::empty(),
            r.difficulty == INITIAL_DIFFICULTY,
    {
        let genesis_block = Block::genesis();
        let mut blocks: Vec<Block> = Vec::new();
        blocks.push(genesis_block);
        Blockchain { blocks, utxo_set: UtxoSet::new(), difficulty: INITIAL_DIFFICULTY }
    }

    /// Appends a candidate block after checking, in order, that the chain has a tip,
    /// that the block links to it, that its hash meets the current difficulty, that
    /// the hash is the block's own, and that its transactions apply to the ledger.
    /// On any failure nothing changes. On success the block is appended, the ledger
    /// advanced, and the difficulty retargeted.
    pub fn add_block(&mut self, block: Block) -> (r: Result<(), BlockchainError>)
        requires
            old(self).wf(),
        ensures
            final(self).wf(),
            match rejection(old(self).blocks@, old(self).utxo_set@, old(self).difficulty, block) {
                Some(e) => r == Err::<(), BlockchainError>(e) && *final(self) == *old(self),
                None => {
                    &&& r is Ok
                    &&& final(self).blocks@ == old(self).blocks@.push(block)
                    &&& Some(final(self).utxo_set@) == apply_block_txs(
                        old(self).utxo_set@,
                        block.transactions@,
                    )
                    &&& final(self).difficulty == next_difficulty_after(
                        old(self).blocks@,
                        old(self).difficulty,
                        block,
                    )
                },
            },
            chain_valid(old(self).blocks@) ==> chain_valid(final(self).blocks@),
    {
        let len = self.blocks.len();
        if len == 0 {
            return Err(BlockchainError::EmptyChain);
        }
        if block.header.prev_block_hash != self.blocks[len - 1].hash {
            return Err(BlockchainError::InvalidBlockLink);
        }
        let pow = ProofOfWork::new(self.difficulty);
        if !pow.validate(block.hash.as_str()) {
            return Err(BlockchainError::InvalidPoW);
        }
        if !block.is_valid() {
            return Err(BlockchainError::InvalidBlock);
        }
        let applied = self.update_utxo_set(&block);
        if applied.is_err() {
            return Err(BlockchainError::InvalidTransaction);
        }
        let start = if len > RETARGET_WINDOW {
            len - RETARGET_WINDOW
        } else {
            0
        };
        let start_ts = self.blocks[start].header.timestamp;
        let now = block.header.timestamp;
        let elapsed = if now >= start_ts {
            now - start_ts
        } else {
            0
        };
        let ghost old_blocks = self.blocks@;
        self.difficulty = next_difficulty(self.difficulty, elapsed, (len - start) as u64);
        self.blocks.push(block);
        proof {
            if chain_valid(old_blocks) {
                assert forall|i: int| 1 <= i < self.blocks@.len() implies (
                #[trigger] self.blocks@[i]).header.prev_block_hash@ == self.blocks@[i - 1].hash@
                    && block_valid(self.blocks@[i]) by {
                    assert(self.blocks@[i - 1] == old_blocks.push(block)[i - 1]);
                    if i < old_blocks.len() {
                        assert(old_blocks[i] == self.blocks@[i]);
                    }
                }
            }
        }
        Ok(())
    }

    /// Advances the ledger by a block's transactions, all or nothing.
    fn update_utxo_set(&mut self, block: &Block) -> (r: Result<(), BlockchainError>)
        requires
            old(self).wf(),
        ensures
            final(self).wf(),
            final(self).blocks == old(self).blocks,
            final(self).difficulty == old(self).difficulty,
            match apply_block_txs(old(self).utxo_set@, block.transactions@) {
                Some(m) => r is Ok && final(self).utxo_set@ == m,
                None => r == Err::<(), BlockchainError>(BlockchainError::InvalidTransaction)
                    && *final(self) == *old(self),
            },
    {
        self.utxo_set.apply_block(block.transactions.as_slice())
    }

    /// Re-checks every link and stored hash from the second block on; the genesis
    /// block is the trust anchor and is not checked.
    pub fn is_valid(&self) -> (r: bool)
        ensures
            r == chain_valid(self.blocks@),
    {
        let mut i: usize = 1;
        while i < self.blocks.len()
            invariant
                1 <= i,
                i <= self.blocks@.len() || self.blocks@.len() == 0,
                forall|j: int|
                    1 <= j < i && j < self.blocks@.len() ==> (#[trigger] self.blocks@[j]).header.prev_block_hash@
                        == self.blocks@[j - 1].hash@ && block_valid(self.blocks@[j]),
            decreases self.blocks@.len() - i,
        {
            let prev = &self.blocks[i - 1];
            let current = &self.blocks[i];
            if current.header.prev_block_hash != prev.hash || !current.is_valid() {
                return false;
            }
            i = i + 1;
        }
        true
    }
}

} // verus!
