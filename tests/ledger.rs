use ledger_core::block::compute_merkle_root;
use ledger_core::chain::next_difficulty;
use ledger_core::hashing::digest;
use ledger_core::{
    Block, BlockHeader, Blockchain, BlockchainError, ProofOfWork, Transaction, TxInput, TxOutput,
    UtxoSet,
};

const EMPTY_SHA256: &str = "e3b0c44298fc1c149afbf4c8996fb92427ae41e4649b934ca495991b7852b855";

fn header(prev: &str, timestamp: u64) -> BlockHeader {
    BlockHeader {
        version: 1,
        prev_block_hash: prev.to_string(),
        merkle_root: String::new(),
        timestamp,
        bits: 0,
        nonce: 0,
    }
}

fn coinbase(id: &str, value: u64, owner: &str) -> Transaction {
    Transaction {
        id: id.to_string(),
        inputs: vec![],
        outputs: vec![TxOutput { value, owner: owner.to_string() }],
    }
}

fn spend(id: &str, from: &[(&str, usize)], value: u64, owner: &str) -> Transaction {
    Transaction {
        id: id.to_string(),
        inputs: from
            .iter()
            .map(|(t, i)| TxInput { txid: t.to_string(), output_index: *i })
            .collect(),
        outputs: vec![TxOutput { value, owner: owner.to_string() }],
    }
}

/// A chain with one mined block paying 50 to "A" under transaction "tx-a".
fn chain_with_one_block() -> Blockchain {
    let mut chain = Blockchain::new();
    let tip = chain.blocks[0].hash.clone();
    let block = Block::mine(header(&tip, 1_700_000_000), vec![coinbase("tx-a", 50, "A")], 4)
        .expect("a nonce is found");
    assert_eq!(chain.add_block(block), Ok(()));
    chain
}

fn mine_on(chain: &Blockchain, timestamp: u64, txs: Vec<Transaction>) -> Block {
    let tip = chain.blocks.last().unwrap().hash.clone();
    Block::mine(header(&tip, timestamp), txs, chain.difficulty).expect("a nonce is found")
}

#[test]
fn digest_of_known_inputs() {
    assert_eq!(digest(b""), EMPTY_SHA256);
    assert_eq!(
        digest(b"abc"),
        "ba7816bf8f01cfea414140de5dae2223b00361a396177a9cb410ff61f20015ad"
    );
}

#[test]
fn merkle_root_shapes() {
    assert_eq!(compute_merkle_root(vec![]), EMPTY_SHA256);
    assert_eq!(compute_merkle_root(vec!["aa".to_string()]), "aa");
    let ab = digest(b"aabb");
    assert_eq!(compute_merkle_root(vec!["aa".to_string(), "bb".to_string()]), ab);
    let cc = digest(b"cccc");
    let mut top = ab.clone();
    top.push_str(&cc);
    assert_eq!(
        compute_merkle_root(vec!["aa".to_string(), "bb".to_string(), "cc".to_string()]),
        digest(top.as_bytes())
    );
    assert_ne!(
        compute_merkle_root(vec!["bb".to_string(), "aa".to_string()]),
        compute_merkle_root(vec!["aa".to_string(), "bb".to_string()])
    );
}

#[test]
fn genesis_is_fixed_and_valid() {
    let g = Block::genesis();
    assert_eq!(g.header.prev_block_hash, "0");
    assert_eq!(g.header.timestamp, 1234567890);
    assert_eq!(g.header.bits, 0x1e0ffff0);
    assert!(g.transactions.is_empty());
    assert!(g.is_valid());
    assert_eq!(g.hash.len(), 64);
    assert_eq!(Block::genesis().hash, g.hash);
}

#[test]
fn new_block_is_valid() {
    let empty = Block::new(header("0", 5), vec![]);
    assert!(empty.is_valid());
    let one = Block::new(header("0", 5), vec![coinbase("t", 1, "B")]);
    assert!(one.is_valid());
    assert_ne!(one.hash, empty.hash);
}

#[test]
fn mined_block_is_valid() {
    let b = Block::mine(header("0", 7), vec![], 4).unwrap();
    assert!(b.is_valid());
    assert!(ProofOfWork::new(4).validate(&b.hash));
}

#[test]
fn tampered_block_is_invalid() {
    let mut b = Block::new(header("0", 5), vec![coinbase("t", 1, "B")]);
    b.transactions[0].outputs[0].value = 2;
    b.transactions[0].id = "u".to_string();
    assert!(!b.is_valid());
}

#[test]
fn mine_at_difficulty_eight() {
    let b = Block::mine(header("0", 42), vec![coinbase("t", 1, "B")], 8).unwrap();
    assert!(b.hash.starts_with("00"));
    assert!(ProofOfWork::new(8).validate(&b.hash));
    assert!(ProofOfWork::new(0).validate(&b.hash));
    assert!(b.is_valid());
}

#[test]
fn validate_thresholds() {
    let zeros = "0".repeat(64);
    let ones = "f".repeat(64);
    assert!(ProofOfWork::new(256).validate(&zeros));
    assert!(!ProofOfWork::new(257).validate(&zeros));
    assert!(ProofOfWork::new(0).validate(&ones));
    assert!(!ProofOfWork::new(1).validate(&ones));
    let half = format!("7{}", "f".repeat(63));
    assert!(ProofOfWork::new(1).validate(&half));
    assert!(!ProofOfWork::new(2).validate(&half));
    assert!(!ProofOfWork::new(0).validate("xyz"));
    assert!(!ProofOfWork::new(0).validate("abc"));
}

#[test]
fn nonce_space_exhausted() {
    assert_eq!(
        Block::mine(header("0", 1), vec![], 300).err(),
        Some(BlockchainError::NonceExhausted)
    );
    let pow = ProofOfWork::new(4);
    let h = header("0", 1);
    let (n, hash) = pow.mine_range(&h, "root", 0, u64::MAX).unwrap();
    assert_eq!(pow.calculate_hash(&h, n, "root"), hash);
    assert!(pow.mine_range(&h, "root", 5, 4).is_none());
}

#[test]
fn mine_then_add_scenario() {
    let chain = chain_with_one_block();
    assert_eq!(chain.blocks.len(), 2);
    assert_eq!(chain.utxo_set.len(), 1);
    let out = chain.utxo_set.get(&"tx-a".to_string(), 0).unwrap();
    assert_eq!(out.value, 50);
    assert_eq!(out.owner, "A");
    assert!(chain.is_valid());
}

#[test]
fn stale_link_scenario() {
    let mut chain = chain_with_one_block();
    let genesis_hash = chain.blocks[0].hash.clone();
    let b = Block::mine(header(&genesis_hash, 1_700_000_100), vec![], 4).unwrap();
    assert_eq!(chain.add_block(b), Err(BlockchainError::InvalidBlockLink));
    assert_eq!(chain.blocks.len(), 2);
}

#[test]
fn pow_and_structure_errors() {
    let mut chain = Blockchain::new();
    let tip = chain.blocks[0].hash.clone();
    let mut weak = Block::mine(header(&tip, 9), vec![], 4).unwrap();
    weak.hash = "f".repeat(64);
    assert_eq!(chain.add_block(weak), Err(BlockchainError::InvalidPoW));
    let mut forged = Block::mine(header(&tip, 9), vec![], 4).unwrap();
    forged.hash = "0".repeat(64);
    assert_eq!(chain.add_block(forged), Err(BlockchainError::InvalidBlock));
    assert_eq!(chain.blocks.len(), 1);
}

#[test]
fn empty_chain_error() {
    let mut chain = Blockchain { blocks: vec![], utxo_set: UtxoSet::new(), difficulty: 4 };
    let b = Block::new(header("0", 1), vec![]);
    assert_eq!(chain.add_block(b), Err(BlockchainError::EmptyChain));
}

#[test]
fn double_spend_within_block() {
    let mut chain = chain_with_one_block();
    let txs = vec![
        spend("tx-b", &[("tx-a", 0)], 50, "B"),
        spend("tx-c", &[("tx-a", 0)], 50, "C"),
    ];
    let b = mine_on(&chain, 1_700_000_060, txs);
    assert_eq!(chain.add_block(b), Err(BlockchainError::InvalidTransaction));
    assert_eq!(chain.blocks.len(), 2);
    assert_eq!(chain.utxo_set.len(), 1);
    assert_eq!(chain.utxo_set.get(&"tx-a".to_string(), 0).unwrap().value, 50);
    let twice = vec![spend("tx-d", &[("tx-a", 0), ("tx-a", 0)], 50, "D")];
    let b = mine_on(&chain, 1_700_000_060, twice);
    assert_eq!(chain.add_block(b), Err(BlockchainError::InvalidTransaction));
    assert_eq!(chain.utxo_set.len(), 1);
}

#[test]
fn double_spend_against_ledger() {
    let mut chain = chain_with_one_block();
    let b = mine_on(&chain, 1_700_000_060, vec![spend("tx-b", &[("tx-a", 0)], 50, "B")]);
    assert_eq!(chain.add_block(b), Ok(()));
    assert!(chain.utxo_set.get(&"tx-a".to_string(), 0).is_none());
    assert_eq!(chain.utxo_set.get(&"tx-b".to_string(), 0).unwrap().owner, "B");
    let again = mine_on(&chain, 1_700_000_120, vec![spend("tx-c", &[("tx-a", 0)], 50, "C")]);
    assert_eq!(chain.add_block(again), Err(BlockchainError::InvalidTransaction));
    assert_eq!(chain.blocks.len(), 3);
    assert_eq!(chain.utxo_set.len(), 1);
    assert!(chain.is_valid());
}

#[test]
fn spend_output_of_earlier_transaction_in_same_block() {
    let mut chain = chain_with_one_block();
    let txs = vec![
        spend("tx-b", &[("tx-a", 0)], 50, "B"),
        spend("tx-c", &[("tx-b", 0)], 50, "C"),
    ];
    let b = mine_on(&chain, 1_700_000_060, txs);
    assert_eq!(chain.add_block(b), Ok(()));
    assert_eq!(chain.utxo_set.len(), 1);
    assert_eq!(chain.utxo_set.get(&"tx-c".to_string(), 0).unwrap().owner, "C");
}

#[test]
fn duplicate_output_is_rejected() {
    let mut chain = chain_with_one_block();
    let b = mine_on(&chain, 1_700_000_060, vec![coinbase("tx-a", 7, "Z")]);
    assert_eq!(chain.add_block(b), Err(BlockchainError::InvalidTransaction));
    assert_eq!(chain.utxo_set.get(&"tx-a".to_string(), 0).unwrap().value, 50);
}

#[test]
fn flipping_a_stored_hash_breaks_the_chain() {
    let mut chain = chain_with_one_block();
    let b = mine_on(&chain, 1_700_000_060, vec![]);
    assert_eq!(chain.add_block(b), Ok(()));
    assert!(chain.is_valid());
    for i in 0..chain.blocks.len() {
        let original = chain.blocks[i].hash.clone();
        let mut bytes = original.clone().into_bytes();
        bytes[3] = if bytes[3] == b'0' { b'1' } else { b'0' };
        chain.blocks[i].hash = String::from_utf8(bytes).unwrap();
        assert!(!chain.is_valid());
        chain.blocks[i].hash = original;
        assert!(chain.is_valid());
    }
}

#[test]
fn retarget_policy() {
    assert_eq!(next_difficulty(4, 10, 1), 5);
    assert_eq!(next_difficulty(4, 60, 1), 4);
    assert_eq!(next_difficulty(4, 1000, 1), 3);
    assert_eq!(next_difficulty(64, 0, 1), 64);
    assert_eq!(next_difficulty(1, 1000, 1), 1);
    assert_eq!(next_difficulty(0, 60, 1), 1);
    assert_eq!(next_difficulty(10, 299, 10), 11);
    assert_eq!(next_difficulty(10, 1201, 10), 9);
}

#[test]
fn difficulty_follows_block_times() {
    let chain = chain_with_one_block();
    // The genesis timestamp lies years before the mined block.
    assert_eq!(chain.difficulty, 3);
}

#[test]
fn error_messages() {
    assert_eq!(BlockchainError::InvalidPoW.message(), "Invalid proof-of-work");
    assert_eq!(BlockchainError::EmptyChain.message(), "Empty blockchain");
}

#[test]
fn repeated_id_cannot_respend() {
    let mut chain = Blockchain::new();
    let txs = vec![
        coinbase("X", 10, "A"),
        spend("X", &[("X", 0)], 10, "B"),
        spend("Y", &[("X", 0)], 10, "C"),
    ];
    let b = mine_on(&chain, 1_700_000_000, txs);
    assert_eq!(chain.add_block(b), Err(BlockchainError::InvalidTransaction));
    assert_eq!(chain.blocks.len(), 1);
    assert_eq!(chain.utxo_set.len(), 0);
}

#[test]
fn duplicate_ids_in_block_rejected() {
    let mut chain = Blockchain::new();
    let txs = vec![coinbase("X", 10, "A"), Transaction { id: "X".to_string(), inputs: vec![], outputs: vec![] }];
    let b = mine_on(&chain, 1_700_000_000, txs);
    assert_eq!(chain.add_block(b), Err(BlockchainError::InvalidTransaction));
    assert_eq!(chain.utxo_set.len(), 0);
}

#[test]
fn spent_output_cannot_be_recreated_in_block() {
    let mut chain = chain_with_one_block();
    let txs = vec![
        spend("tx-b", &[("tx-a", 0)], 50, "B"),
        coinbase("tx-a", 50, "Z"),
        spend("tx-c", &[("tx-a", 0)], 50, "C"),
    ];
    let b = mine_on(&chain, 1_700_000_060, txs);
    assert_eq!(chain.add_block(b), Err(BlockchainError::InvalidTransaction));
    let only_recreate = vec![spend("tx-b", &[("tx-a", 0)], 50, "B"), coinbase("tx-a", 50, "Z")];
    let b = mine_on(&chain, 1_700_000_060, only_recreate);
    assert_eq!(chain.add_block(b), Err(BlockchainError::InvalidTransaction));
    assert_eq!(chain.utxo_set.get(&"tx-a".to_string(), 0).unwrap().owner, "A");
}

#[test]
fn balances_by_owner() {
    let mut chain = chain_with_one_block();
    assert_eq!(chain.utxo_set.balance_of(&"A".to_string()), 50);
    assert_eq!(chain.utxo_set.balance_of(&"B".to_string()), 0);
    let txs = vec![
        coinbase("tx-m", u64::MAX, "A"),
        spend("tx-n", &[("tx-a", 0)], 30, "B"),
        coinbase("tx-o", 5, "B"),
    ];
    let b = mine_on(&chain, 1_700_000_060, txs);
    assert_eq!(chain.add_block(b), Ok(()));
    assert_eq!(chain.utxo_set.balance_of(&"A".to_string()), u64::MAX as u128);
    assert_eq!(chain.utxo_set.balance_of(&"B".to_string()), 35);
    assert_eq!(UtxoSet::new().balance_of(&"A".to_string()), 0);
}

#[test]
fn new_chain_starts_at_genesis() {
    let chain = Blockchain::new();
    let g = Block::genesis();
    assert_eq!(chain.blocks.len(), 1);
    assert_eq!(chain.blocks[0].hash, g.hash);
    assert_eq!(chain.blocks[0].header.version, 1);
    assert_eq!(chain.blocks[0].header.nonce, 0);
    assert_eq!(chain.utxo_set.len(), 0);
    assert_eq!(chain.difficulty, 4);
}

#[test]
fn hashes_are_sixty_four_hex_digits() {
    let h = header("0", 3);
    let hash = Block::calculate_hash(&h, &[coinbase("t", 1, "B")]);
    assert_eq!(hash.len(), 64);
    assert!(hash.chars().all(|c| c.is_ascii_digit() || ('a'..='f').contains(&c)));
    let b = Block::mine(h, vec![], 8).unwrap();
    assert_eq!(b.hash.len(), 64);
    assert!(b.hash.starts_with("00"));
}
