//! Blocks, their headers and transactions, the binary Merkle tree over
//! transaction identifiers, and the one block hash.
use crate::error::BlockchainError;
use crate::hashing::{be_u32, be_u64, digest, digest_of, push_bytes, push_u32_be, push_u64_be};
use crate::pow::{hash_meets, ProofOfWork};
use vstd::prelude::*;
use vstd::utf8::encode_utf8;

verus! {

/// Block metadata. Only the nonce changes while a block is mined.
#[derive(Debug, Clone)]
pub struct BlockHeader {
    /// Protocol version.
    pub version: u32,
    /// Hash of the previous block.
    pub prev_block_hash: String,
    /// Merkle root of the transactions, as declared by the block's author.
    pub merkle_root: String,
    /// Unix timestamp.
    pub timestamp: u64,
    /// Difficulty encoding.
    pub bits: u32,
    /// Proof-of-work counter.
    pub nonce: u64,
}

/// A reference to an output of an earlier transaction.
#[derive(Debug, Clone)]
pub struct TxInput {
    /// Identifier of the transaction that created the output.
    pub txid: String,
    /// Position of the output in that transaction.
    pub output_index: usize,
}

/// A value paid to an owner.
#[derive(Debug, Clone)]
pub struct TxOutput {
    pub value: u64,
    pub owner: String,
}

/// A transaction: its identifier, the outputs it spends and the outputs it creates.
#[derive(Debug, Clone)]
pub struct Transaction {
    pub id: String,
    pub inputs: Vec<TxInput>,
    pub outputs: Vec<TxOutput>,
}

/// A header, its ordered transactions, and the hash stored for them.
#[derive(Debug, Clone)]
pub struct Block {
    pub header: BlockHeader,
    pub transactions: Vec<Transaction>,
    pub hash: String,
}

impl BlockHeader {
    /// The two headers agree on every field but the nonce.
    pub open spec fn same_but_nonce(self, other: BlockHeader) -> bool {
        &&& self.version == other.version
        &&& self.prev_block_hash == other.prev_block_hash
        &&& self.merkle_root == other.merkle_root
        &&& self.timestamp == other.timestamp
        &&& self.bits == other.bits
    }
}

/// The UTF-8 bytes of a text, preceded by their count as eight big-endian bytes.
pub open spec fn framed(s: Seq<char>) -> Seq<u8> {
    be_u64(encode_utf8(s).len() as u64) + encode_utf8(s)
}

/// The encoding of every header field but the nonce, in declaration order.
pub open spec fn header_prefix(h: BlockHeader) -> Seq<u8> {
    be_u32(h.version) + framed(h.prev_block_hash@) + framed(h.merkle_root@) + be_u64(h.timestamp)
        + be_u32(h.bits)
}

/// What is hashed for a header at a nonce over a Merkle root.
pub open spec fn block_preimage(h: BlockHeader, nonce: u64, root: Seq<char>) -> Seq<u8> {
    header_prefix(h) + be_u64(nonce) + framed(root)
}

/// The block hash of a header at a nonce over a Merkle root.
pub open spec fn hash_at(h: BlockHeader, nonce: u64, root: Seq<char>) -> Seq<char> {
    digest_of(block_preimage(h, nonce, root))
}

/// The parent of two Merkle nodes: the digest of their texts one after the other.
pub open spec fn pair_digest(l: Seq<char>, r: Seq<char>) -> Seq<char> {
    digest_of(encode_utf8(l) + encode_utf8(r))
}

/// One level up a Merkle tree: nodes are paired in order, and a last node without
/// a partner is paired with itself.
pub open spec fn merkle_level(s: Seq<Seq<char>>) -> Seq<Seq<char>> {
    Seq::new(
        ((s.len() + 1) / 2) as nat,
        |i: int|
            pair_digest(s[2 * i], if 2 * i + 1 < s.len() { s[2 * i + 1] } else { s[2 * i] }),
    )
}

/// The Merkle root of a list of digests: the digest of no bytes for an empty
/// list, the one digest for a single one, else the root of the level above.
pub open spec fn merkle_root_of(s: Seq<Seq<char>>) -> Seq<char>
    decreases s.len(),
{
    if s.len() == 0 {
        digest_of(Seq::empty())
    } else if s.len() == 1 {
        s[0]
    } else {
        merkle_root_of(merkle_level(s))
    }
}

/// The texts of a list of strings.
pub open spec fn texts(s: Seq<String>) -> Seq<Seq<char>> {
    s.map_values(|x: String| x@)
}

/// The identifiers of a list of transactions, in order.
pub open spec fn tx_ids(txs: Seq<Transaction>) -> Seq<Seq<char>> {
    txs.map_values(|t: Transaction| t.id@)
}

/// The block hash of a header and its transactions.
pub open spec fn block_hash_of(h: BlockHeader, txs: Seq<Transaction>) -> Seq<char> {
    hash_at(h, h.nonce, merkle_root_of(tx_ids(txs)))
}

/// A block's stored hash is the hash of its header and transactions.
pub open spec fn block_valid(b: Block) -> bool {
    b.hash@ == block_hash_of(b.header, b.transactions@)
}

/// Appends the byte count of a text as eight big-endian bytes, then its UTF-8 bytes.
fn push_framed(out: &mut Vec<u8>, s: &str)
    ensures
        final(out)@ == old(out)@ + framed(s@),
{
    let b = s.as_bytes();
    push_u64_be(out, b.len() as u64);
    push_bytes(out, b);
    assert(out@ =~= old(out)@ + framed(s@));
}

/// The bytes hashed for a header at a nonce over a Merkle root.
pub fn encode_preimage(header: &BlockHeader, nonce: u64, merkle_root: &str) -> (r: Vec<u8>)
    ensures
        r@ == block_preimage(*header, nonce, merkle_root@),
{
    let mut out: Vec<u8> = Vec::new();
    push_u32_be(&mut out, header.version);
    push_framed(&mut out, header.prev_block_hash.as_str());
    push_framed(&mut out, header.merkle_root.as_str());
    push_u64_be(&mut out, header.timestamp);
    push_u32_be(&mut out, header.bits);
    push_u64_be(&mut out, nonce);
    push_framed(&mut out, merkle_root);
    assert(out@ =~= block_preimage(*header, nonce, merkle_root@));
    out
}

/// The parent digest of two Merkle nodes.
fn hash_pair(l: &String, r: &String) -> (h: String)
    ensures
        h@ == pair_digest(l@, r@),
{
    let mut data: Vec<u8> = Vec::new();
    push_bytes(&mut data, l.as_str().as_bytes());
    push_bytes(&mut data, r.as_str().as_bytes());
    digest(data.as_slice())
}

/// One level up a Merkle tree.
fn merkle_next_level(level: &Vec<String>) -> (r: Vec<String>)
    requires
        level@.len() >= 1,
    ensures
        texts(r@) == merkle_level(texts(level@)),
{
    let ghost s = texts(level@);
    let n = level.len();
    let pairs = n / 2 + n % 2;
    let mut out: Vec<String> = Vec::new();
    let mut j: usize = 0;
    while j < pairs
        invariant
            s == texts(level@),
            n == level@.len(),
            pairs == (n + 1) / 2,
            j <= pairs,
            out@.len() == j,
            forall|k: int| 0 <= k < j ==> #[trigger] texts(out@)[k] == merkle_level(s)[k],
        decreases pairs - j,
    {
        let a = 2 * j;
        let right = if a + 1 < n {
            &level[a + 1]
        } else {
            &level[a]
        };
        let h = hash_pair(&level[a], right);
        let ghost before = out@;
        out.push(h);
        proof {
            assert forall|k: int| 0 <= k < j + 1 implies #[trigger] texts(out@)[k] == merkle_level(
                s,
            )[k] by {
                if k < j {
                    assert(out@[k] == before[k]);
                    assert(texts(before)[k] == merkle_level(s)[k]);
                }
            }
        }
        j = j + 1;
    }
    assert(texts(out@) =~= merkle_level(s));
    out
}

/// The root of a binary Merkle tree over the given digests.
pub fn compute_merkle_root(hashes: Vec<String>) -> (r: String)
    ensures
        r@ == merkle_root_of(texts(hashes@)),
{
    let mut level = hashes;
    while level.len() > 1
        invariant
            merkle_root_of(texts(level@)) == merkle_root_of(texts(hashes@)),
        decreases level@.len(),
    {
        level = merkle_next_level(&level);
    }
    if level.len() == 0 {
        let empty: Vec<u8> = Vec::new();
        digest(empty.as_slice())
    } else {
        level[0].clone()
    }
}

impl Block {
    /// The fixed first block: version 1, previous hash and Merkle root "0",
    /// timestamp 1234567890, bits 0x1e0ffff0, nonce 0 and no transactions.
    pub fn genesis() -> (r: Self)
        ensures
            r.header.version == 1,
            r.header.prev_block_hash@ == seq!['0'],
            r.header.merkle_root@ == seq!['0'],
            r.header.timestamp == 1234567890,
            r.header.bits == 0x1e0ffff0,
            r.header.nonce == 0,
            r.transactions@.len() == 0,
            block_valid(r),
            r.hash@.len() == 64,
    {
        let header = BlockHeader {
            version: 1,
            prev_block_hash: "0".to_owned(),
            merkle_root: "0".to_owned(),
            timestamp: 1234567890,
            bits: 0x1e0ffff0,
            nonce: 0,
        };
        proof {
            reveal_strlit("0");
        }
        Block::new(header, Vec::new())
    }

    /// A block over the header and transactions as given, with its hash computed.
    pub fn new(header: BlockHeader, transactions: Vec<Transaction>) -> (r: Self)
        ensures
            r.header == header,
            r.transactions == transactions,
            block_valid(r),
            r.hash@.len() == 64,
    {
        let hash = Self::calculate_hash(&header, transactions.as_slice());
        Block { header, transactions, hash }
    }

    /// Mines a block: the header's nonce becomes the first one, from zero, at which
    /// the block hash meets the target of `difficulty`.
    pub fn mine(header: BlockHeader, transactions: Vec<Transaction>, difficulty: u32) -> (r: Result<
        Self,
        BlockchainError,
    >)
        ensures
            match r {
                Ok(b) => {
                    &&& b.header.same_but_nonce(header)
                    &&& b.transactions == transactions
                    &&& block_valid(b)
                    &&& b.hash@.len() == 64
                    &&& hash_meets(b.hash@, difficulty as nat)
                    &&& forall|m: u64|
                        m < b.header.nonce ==> !hash_meets(
                            #[trigger] hash_at(header, m, merkle_root_of(tx_ids(transactions@))),
                            difficulty as nat,
                        )
                },
                Err(e) => {
                    &&& e == BlockchainError::NonceExhausted
                    &&& forall|m: u64|
                        !hash_meets(
                            #[trigger] hash_at(header, m, merkle_root_of(tx_ids(transactions@))),
                            difficulty as nat,
                        )
                },
            },
    {
        let mut header = header;
        let pow = ProofOfWork::new(difficulty);
        let root = Self::hash_transactions(transactions.as_slice());
        match pow.mine_block(&mut header, root.as_str()) {
            Ok(hash) => Ok(Block { header, transactions, hash }),
            Err(e) => Err(e),
        }
    }

    /// The Merkle root of the transactions' identifiers.
    fn hash_transactions(transactions: &[Transaction]) -> (r: String)
        ensures
            r@ == merkle_root_of(tx_ids(transactions@)),
    {
        let mut ids: Vec<String> = Vec::new();
        let mut i: usize = 0;
        while i < transactions.len()
            invariant
                i <= transactions@.len(),
                ids@.len() == i,
                texts(ids@) =~= tx_ids(transactions@).subrange(0, i as int),
            decreases transactions@.len() - i,
        {
            let ghost before = ids@;
            ids.push(transactions[i].id.clone());
            proof {
                assert forall|k: int| 0 <= k < i + 1 implies #[trigger] texts(ids@)[k] == tx_ids(
                    transactions@,
                )[k] by {
                    if k < i {
                        assert(ids@[k] == before[k]);
                        assert(texts(before)[k] == tx_ids(transactions@).subrange(0, i as int)[k]);
                    }
                }
            }
            i = i + 1;
        }
        assert(tx_ids(transactions@).subrange(0, i as int) =~= tx_ids(transactions@));
        compute_merkle_root(ids)
    }

    /// The block hash: the digest of the header fields followed by the Merkle root of
    /// the transaction identifiers.
    pub fn calculate_hash(header: &BlockHeader, transactions: &[Transaction]) -> (r: String)
        ensures
            r@ == block_hash_of(*header, transactions@),
            r@.len() == 64,
    {
        let root = Self::hash_transactions(transactions);
        let p = encode_preimage(header, header.nonce, root.as_str());
        digest(p.as_slice())
    }

    /// Whether the stored hash is the hash of the header and transactions.
    pub fn is_valid(&self) -> (r: bool)
        ensures
            r == block_valid(*self),
    {
        let h = Self::calculate_hash(&self.header, self.transactions.as_slice());
        self.hash == h
    }
}

/// The block hash depends on the header's field values and the transaction
/// identifiers alone: two blocks that agree on those, such as a block and a copy
/// rebuilt from a serialised form, have the same hash.
pub proof fn lemma_hash_depends_on_contents(
    h1: BlockHeader,
    t1: Seq<Transaction>,
    h2: BlockHeader,
    t2: Seq<Transaction>,
)
    requires
        h1.version == h2.version,
        h1.prev_block_hash@ == h2.prev_block_hash@,
        h1.merkle_root@ == h2.merkle_root@,
        h1.timestamp == h2.timestamp,
        h1.bits == h2.bits,
        h1.nonce == h2.nonce,
        tx_ids(t1) == tx_ids(t2),
    ensures
        block_hash_of(h1, t1) == block_hash_of(h2, t2),
{
    assert(block_preimage(h1, h1.nonce, merkle_root_of(tx_ids(t1))) == block_preimage(
        h2,
        h2.nonce,
        merkle_root_of(tx_ids(t2)),
    ));
}

} // verus!
