//! Proof-of-work: the target of a difficulty, the check of a hash against it,
//! and the nonce search.
use crate::block::{hash_at, BlockHeader};
use crate::error::BlockchainError;
use crate::hashing::{hex_decode, hex_value, is_hex_str, lemma_hex_round_trip, unhex};
use num_bigint::BigUint;
use vstd::arithmetic::power2::{lemma2_to64, lemma_pow2_adds, lemma_pow2_strictly_increases, pow2};
use vstd::prelude::*;

verus! {

/// Width of a digest in bits.
pub const HASH_BITS: u32 = 256;

#[verifier::external_type_specification]
#[verifier::external_body]
pub struct ExBigUint(BigUint);

/// The number that a big unsigned integer holds.
pub uninterp spec fn biguint_value(n: BigUint) -> nat;

/// A byte string read as an unsigned big-endian number.
pub open spec fn be_value(b: Seq<u8>) -> nat
    decreases b.len(),
{
    if b.len() == 0 {
        0
    } else {
        (be_value(b.drop_last()) * 256 + b.last()) as nat
    }
}

/// Digest bytes meet the target of a difficulty: read big-endian, they are below
/// 2^(256 - difficulty). No digest meets a difficulty above 256.
pub open spec fn meets_target(bytes: Seq<u8>, difficulty: nat) -> bool {
    difficulty <= HASH_BITS && be_value(bytes) < pow2((HASH_BITS - difficulty) as nat)
}

/// A written hash meets the target of a difficulty: it is hexadecimal text whose
/// bytes meet the target.
pub open spec fn hash_meets(hash: Seq<char>, difficulty: nat) -> bool {
    is_hex_str(hash) && meets_target(unhex(hash), difficulty)
}

/// Relies on num_bigint's `BigUint::from_bytes_be`: the number whose big-endian bytes are given.
#[verifier::external_body]
fn big_from_be(b: &[u8]) -> (r: BigUint)
    ensures
        biguint_value(r) == be_value(b@),
{
    BigUint::from_bytes_be(b)
}

/// Relies on num_traits' `One::one` for `BigUint` and num_bigint's `Shl<u32>`:
/// one shifted left by `e` bits is 2^e.
#[verifier::external_body]
fn big_pow2(e: u32) -> (r: BigUint)
    ensures
        biguint_value(r) == pow2(e as nat),
{
    <BigUint as num_traits::One>::one() << e
}

/// Relies on num_bigint's `PartialOrd` for `BigUint`: numeric comparison.
#[verifier::external_body]
fn big_lt(a: &BigUint, b: &BigUint) -> (r: bool)
    ensures
        r == (biguint_value(*a) < biguint_value(*b)),
{
    a < b
}

/// Proof-of-work at a difficulty: the number of leading zero bits that a block hash needs.
#[derive(Debug)]
pub struct ProofOfWork {
    pub difficulty: u32,
}

impl ProofOfWork {
    /// A proof-of-work instance for the given difficulty.
    pub fn new(difficulty: u32) -> (r: Self)
        ensures
            r.difficulty == difficulty,
    {
        ProofOfWork { difficulty }
    }

    /// The target 2^(256 - difficulty) that a hash must stay below.
    fn calculate_target(&self) -> (r: BigUint)
        requires
            self.difficulty <= HASH_BITS,
        ensures
            biguint_value(r) == pow2((HASH_BITS - self.difficulty) as nat),
    {
        big_pow2(HASH_BITS - self.difficulty)
    }

    /// Whether digest bytes meet this instance's target.
    pub fn meets_target(&self, bytes: &[u8]) -> (r: bool)
        ensures
            r == meets_target(bytes@, self.difficulty as nat),
    {
        if self.difficulty > HASH_BITS {
            return false;
        }
        let target = self.calculate_target();
        let value = big_from_be(bytes);
        big_lt(&value, &target)
    }

    /// Whether a written block hash meets this instance's target; text that is no
    /// even run of hexadecimal digits never does.
    pub fn validate(&self, block_hash: &str) -> (r: bool)
        ensures
            r == hash_meets(block_hash@, self.difficulty as nat),
    {
        match hex_decode(block_hash) {
            Some(bytes) => self.meets_target(bytes.as_slice()),
            None => false,
        }
    }

    /// The hash of a header at a nonce, over a Merkle root: the one block hash
    /// that mining searches and that a block stores.
    pub fn calculate_hash(&self, header: &BlockHeader, nonce: u64, merkle_root: &str) -> (r: String)
        ensures
            r@ == hash_at(*header, nonce, merkle_root@),
            r@.len() == 64,
    {
        let p = crate::block::encode_preimage(header, nonce, merkle_root);
        crate::hashing::digest(p.as_slice())
    }

    /// Searches the nonces from `first` to `last`, in order, for the first whose hash
    /// meets the target, and returns it with that hash. This lets a caller mine in
    /// slices and stop between them.
    pub fn mine_range(&self, header: &BlockHeader, merkle_root: &str, first: u64, last: u64) -> (r:
        Option<(u64, String)>)
        ensures
            match r {
                Some((n, h)) => {
                    &&& first <= n <= last
                    &&& h@ == hash_at(*header, n, merkle_root@)
                    &&& h@.len() == 64
                    &&& hash_meets(h@, self.difficulty as nat)
                    &&& forall|m: u64|
                        first <= m < n ==> !hash_meets(
                            #[trigger] hash_at(*header, m, merkle_root@),
                            self.difficulty as nat,
                        )
                },
                None => forall|m: u64|
                    first <= m <= last ==> !hash_meets(
                        #[trigger] hash_at(*header, m, merkle_root@),
                        self.difficulty as nat,
                    ),
            },
    {
        if self.difficulty > HASH_BITS || first > last {
            return None;
        }
        let mut n: u64 = first;
        loop
            invariant
                first <= n <= last,
                self.difficulty <= HASH_BITS,
                forall|m: u64|
                    first <= m < n ==> !hash_meets(
                        #[trigger] hash_at(*header, m, merkle_root@),
                        self.difficulty as nat,
                    ),
            decreases last - n,
        {
            let p = crate::block::encode_preimage(header, n, merkle_root);
            let bytes = crate::hashing::sha256(p.as_slice());
            proof {
                lemma_hex_round_trip(bytes@);
            }
            if self.meets_target(bytes.as_slice()) {
                let h = crate::hashing::hex_encode(bytes.as_slice());
                return Some((n, h));
            }
            if n == last {
                return None;
            }
            n = n + 1;
        }
    }

    /// Mines a header: sets its nonce to the first one, from zero, whose hash meets
    /// the target and returns that hash. When no nonce does, the header is left as
    /// it was and `NonceExhausted` comes back.
    pub fn mine_block(&self, header: &mut BlockHeader, merkle_root: &str) -> (r: Result<
        String,
        BlockchainError,
    >)
        ensures
            match r {
                Ok(h) => {
                    &&& final(header).same_but_nonce(*old(header))
                    &&& h@ == hash_at(*final(header), final(header).nonce, merkle_root@)
                    &&& h@.len() == 64
                    &&& hash_meets(h@, self.difficulty as nat)
                    &&& forall|m: u64|
                        m < final(header).nonce ==> !hash_meets(
                            #[trigger] hash_at(*old(header), m, merkle_root@),
                            self.difficulty as nat,
                        )
                },
                Err(e) => {
                    &&& e == BlockchainError::NonceExhausted
                    &&& *final(header) == *old(header)
                    &&& forall|m: u64|
                        !hash_meets(
                            #[trigger] hash_at(*old(header), m, merkle_root@),
                            self.difficulty as nat,
                        )
                },
            },
    {
        match self.mine_range(header, merkle_root, 0, u64::MAX) {
            Some((n, h)) => {
                header.nonce = n;
                Ok(h)
            },
            None => Err(BlockchainError::NonceExhausted),
        }
    }
}

/// A hash that meets the target of a difficulty meets the target of every lower
/// difficulty: raising the difficulty only shrinks the set of accepted hashes.
pub proof fn lemma_target_monotone(hash: Seq<char>, d1: nat, d2: nat)
    requires
        d1 < d2,
        hash_meets(hash, d2),
    ensures
        hash_meets(hash, d1),
{
    lemma_pow2_strictly_increases((HASH_BITS - d2) as nat, (HASH_BITS - d1) as nat);
}

/// The target falls strictly as the difficulty rises.
pub proof fn lemma_target_strictly_falls(d1: nat, d2: nat)
    requires
        d1 < d2 <= HASH_BITS,
    ensures
        pow2((HASH_BITS - d2) as nat) < pow2((HASH_BITS - d1) as nat),
{
    lemma_pow2_strictly_increases((HASH_BITS - d2) as nat, (HASH_BITS - d1) as nat);
}

proof fn lemma_be_value_lower(b: Seq<u8>)
    requires
        b.len() >= 1,
    ensures
        be_value(b) >= b[0] * pow2((8 * (b.len() - 1)) as nat),
    decreases b.len(),
{
    if b.len() == 1 {
        assert(b.drop_last().len() == 0);
        assert(pow2(0) == 1) by {
            lemma2_to64();
        }
    } else {
        let t = b.drop_last();
        assert(t[0] == b[0]);
        lemma_be_value_lower(t);
        let e = (8 * (t.len() - 1)) as nat;
        lemma_pow2_adds(e, 8);
        lemma2_to64();
        assert((8 * (b.len() - 1)) as nat == e + 8);
        let x = be_value(t) as int;
        let y = b[0] as int;
        let p = pow2(e) as int;
        assert(x * 256 >= y * (p * 256)) by (nonlinear_arith)
            requires
                x >= y * p,
        ;
    }
}

/// A 64-digit hash that meets a difficulty of at least 8 begins with "00": its
/// leading 8 bits are zero.
pub proof fn lemma_leading_zero_digits(h: Seq<char>, d: nat)
    requires
        h.len() == 64,
        8 <= d,
        hash_meets(h, d),
    ensures
        h[0] == '0',
        h[1] == '0',
{
    let b = unhex(h);
    lemma_be_value_lower(b);
    if d > 8 {
        lemma_pow2_strictly_increases((HASH_BITS - d) as nat, 248);
    }
    let y = b[0] as int;
    let p = pow2(248) as int;
    assert(y == 0) by (nonlinear_arith)
        requires
            y >= 0,
            p > 0,
            y * p < p,
    {
    }
    assert(hex_value(h[0]) >= 0 && hex_value(h[1]) >= 0);
    assert(hex_value(h[0]) <= 15 && hex_value(h[1]) <= 15);
    assert(hex_value(h[0]) == 0 && hex_value(h[1]) == 0);
}

} // verus!
