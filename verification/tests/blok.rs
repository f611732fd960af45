use blok::data_store::Blockchain;
use blok::data_store::Mempool;
use blok::primitives::Block;
use blok::primitives::BlockHeader;
use blok::primitives::Transaction;
use blok::service::count_leading_zeros;
use blok::service::create_block;
use blok::service::is_valid_hash;
use blok::service::load_most_recent_hash;
use blok::service::produce_inclusion_proof;
use blok::service::produce_inclusion_proof_uncached;
use blok::service::verify_inclusion_proof;
use blok::service::calculate_difficulty;
use blok::service::calculate_hash;
use blok::util::hash;
use sha2::Digest;

fn tx(receiver: &str, sender: &str, signature: &str, amount: u64, lock_time: u64, fee: u64) -> Transaction {
    Transaction {
        receiver: receiver.to_string(),
        lock_time,
        amount,
        sender: sender.to_string(),
        signature: signature.to_string(),
        transaction_fee: fee,
    }
}

fn sha_hex(s: &str) -> String {
    format!("0x{}", hex::encode(sha2::Sha256::digest(s.as_bytes())))
}

fn tx_hash_by_hand(t: &Transaction) -> String {
    sha_hex(&format!(
        "{},{},{},{},{},{}",
        t.amount, t.lock_time, t.receiver, t.sender, t.signature, t.transaction_fee
    ))
}

fn combine_by_hand(a: &str, b: &str) -> String {
    if a < b {
        sha_hex(&format!("{}{}", a, b))
    } else {
        sha_hex(&format!("{}{}", b, a))
    }
}

fn zero_hash() -> String {
    format!("0x{:0>64}", "")
}

fn genesis(timestamp: u64, difficulty: u8, hash_val: &str) -> Block {
    Block {
        block_header: BlockHeader {
            difficulty,
            hash: hash_val.to_string(),
            height: 0,
            miner: "genesis".to_string(),
            nonce: 0,
            previous_block_header_hash: zero_hash(),
            timestamp,
            transactions_count: 0,
            transactions_merkle_root: zero_hash(),
        },
        transactions: Vec::new(),
        merkle_tree: Vec::new(),
    }
}

fn bare_block(transactions: Vec<Transaction>) -> Block {
    Block {
        block_header: BlockHeader {
            difficulty: 0,
            hash: zero_hash(),
            height: 0,
            miner: String::new(),
            nonce: 0,
            previous_block_header_hash: zero_hash(),
            timestamp: 0,
            transactions_count: transactions.len() as u32,
            transactions_merkle_root: zero_hash(),
        },
        transactions,
        merkle_tree: Vec::new(),
    }
}

#[test]
fn hash_matches_sha256_of_input() {
    let input = "abc".to_string();
    let h = hash(&input);
    assert_eq!(
        h,
        "0xba7816bf8f01cfea414140de5dae2223b00361a396177a9cb410ff61f20015ad"
    );
    assert_eq!(h, sha_hex("abc"));
}

#[test]
fn transaction_hash_known_vector() {
    let t = tx("alice", "bob", "sig1", 42, 7, 3);
    let expected = sha_hex("42,7,alice,bob,sig1,3");
    assert_eq!(t.generate_hash(), expected);
}

#[test]
fn transaction_hash_edge_values() {
    let zeros = tx("", "", "", 0, 0, 0);
    assert_eq!(zeros.generate_hash(), sha_hex("0,0,,,,0"));
    let big = tx("r", "s", "g", u64::MAX, 10, 9007199254740993);
    assert_eq!(
        big.generate_hash(),
        sha_hex("18446744073709551615,10,r,s,g,9007199254740993")
    );
}

#[test]
fn single_transaction_tree_is_its_root() {
    let a = tx("a", "b", "s1", 1, 0, 1);
    let tree = Block::generate_merkle_tree(&vec![a.clone()]);
    assert_eq!(tree.len(), 1);
    assert_eq!(tree[0], tx_hash_by_hand(&a));
    // the proof for the only leaf is empty and verifies against the root
    let mut block = bare_block(vec![a.clone()]);
    let proof = produce_inclusion_proof(&mut block, 0);
    assert!(proof.is_empty());
    assert!(verify_inclusion_proof(tree[0].clone(), a.generate_hash(), &proof));
}

#[test]
fn verify_rejects_tampered_proof_element() {
    let txs = vec![
        tx("a", "b", "s1", 1, 0, 1),
        tx("c", "d", "s2", 2, 0, 2),
        tx("e", "f", "s3", 3, 0, 3),
    ];
    let mut block = bare_block(txs.clone());
    let root = block.get_merkle_tree()[0].clone();
    let mut proof = produce_inclusion_proof(&mut block, 1);
    assert!(verify_inclusion_proof(root.clone(), txs[1].generate_hash(), &proof));
    proof[0] = zero_hash();
    assert!(!verify_inclusion_proof(root, txs[1].generate_hash(), &proof));
}

#[test]
fn merkle_tree_is_deterministic() {
    let txs = vec![
        tx("a", "b", "s1", 1, 0, 1),
        tx("c", "d", "s2", 2, 0, 2),
        tx("e", "f", "s3", 3, 0, 3),
    ];
    let t1 = Block::generate_merkle_tree(&txs);
    let t2 = Block::generate_merkle_tree(&txs);
    assert_eq!(t1, t2);
}

#[test]
fn merkle_tree_shape_and_root_two_transactions() {
    let a = tx("a", "b", "s1", 1, 0, 1);
    let b = tx("c", "d", "s2", 2, 0, 2);
    let tree = Block::generate_merkle_tree(&vec![a.clone(), b.clone()]);
    assert_eq!(tree.len(), 3);
    let la = tx_hash_by_hand(&a);
    let lb = tx_hash_by_hand(&b);
    assert_eq!(tree[1], la);
    assert_eq!(tree[2], lb);
    assert_eq!(tree[0], combine_by_hand(&la, &lb));
}

#[test]
fn merkle_tree_pads_with_zero_hash() {
    let txs = vec![
        tx("a", "b", "s1", 1, 0, 1),
        tx("c", "d", "s2", 2, 0, 2),
        tx("e", "f", "s3", 3, 0, 3),
    ];
    let tree = Block::generate_merkle_tree(&txs);
    assert_eq!(tree.len(), 7);
    assert_eq!(tree[6], zero_hash());
}

#[test]
fn sibling_order_independent_root() {
    let a = tx("a", "b", "s1", 1, 0, 1);
    let b = tx("c", "d", "s2", 2, 0, 2);
    let t_ab = Block::generate_merkle_tree(&vec![a.clone(), b.clone()]);
    let t_ba = Block::generate_merkle_tree(&vec![b, a]);
    assert_eq!(t_ab[0], t_ba[0]);
    assert_ne!(t_ab[1], t_ba[1]);
}

#[test]
fn inclusion_proof_round_trip() {
    let txs = vec![
        tx("a", "b", "s1", 1, 0, 1),
        tx("c", "d", "s2", 2, 0, 2),
        tx("e", "f", "s3", 3, 0, 3),
    ];
    let mut block = bare_block(txs.clone());
    let root = Block::generate_merkle_tree(&txs)[0].clone();
    for i in 0..3usize {
        let proof = produce_inclusion_proof(&mut block, i);
        assert_eq!(proof.len(), 2);
        let leaf = txs[i].generate_hash();
        assert!(verify_inclusion_proof(root.clone(), leaf, &proof));
    }
}

#[test]
fn inclusion_proof_out_of_range_is_empty() {
    let txs = vec![tx("a", "b", "s1", 1, 0, 1), tx("c", "d", "s2", 2, 0, 2)];
    let mut block = bare_block(txs);
    // height 1: two leaf slots, positions 0 and 1
    let proof = produce_inclusion_proof(&mut block, 2);
    assert!(proof.is_empty());
}

#[test]
fn inclusion_proof_uncached_matches_cached() {
    let txs = vec![tx("a", "b", "s1", 1, 0, 1), tx("c", "d", "s2", 2, 0, 2)];
    let mut fresh = bare_block(txs.clone());
    let from_fresh = produce_inclusion_proof_uncached(&mut fresh, 0).unwrap();
    // the cache is now populated: the uncached entry declines
    assert!(produce_inclusion_proof_uncached(&mut fresh, 0).is_none());
    let mut cached = bare_block(txs);
    let expected = produce_inclusion_proof(&mut cached, 0);
    assert_eq!(from_fresh, expected);
}

#[test]
fn verify_rejects_wrong_leaf() {
    let txs = vec![tx("a", "b", "s1", 1, 0, 1), tx("c", "d", "s2", 2, 0, 2)];
    let mut block = bare_block(txs.clone());
    let tree = block.get_merkle_tree();
    let proof = produce_inclusion_proof(&mut block, 0);
    let wrong_leaf = txs[1].generate_hash();
    assert!(!verify_inclusion_proof(tree[0].clone(), wrong_leaf, &proof));
}

#[test]
fn tamper_sensitivity() {
    let original = tx("alice", "bob", "sig", 10, 0, 5);
    let other = tx("carol", "dave", "sig2", 20, 0, 7);
    let txs = vec![original.clone(), other.clone()];
    let mut block = bare_block(txs.clone());
    let old_root = block.get_merkle_tree()[0].clone();
    let proof = produce_inclusion_proof(&mut block, 0);
    assert!(verify_inclusion_proof(
        old_root.clone(),
        original.generate_hash(),
        &proof
    ));
    let mut mutants = Vec::new();
    let mut m = original.clone();
    m.receiver = "alicia".to_string();
    mutants.push(m);
    let mut m = original.clone();
    m.sender = "bobby".to_string();
    mutants.push(m);
    let mut m = original.clone();
    m.signature = "gis".to_string();
    mutants.push(m);
    let mut m = original.clone();
    m.amount = 11;
    mutants.push(m);
    let mut m = original.clone();
    m.lock_time = 1;
    mutants.push(m);
    let mut m = original.clone();
    m.transaction_fee = 6;
    mutants.push(m);
    for mutant in mutants {
        assert_ne!(mutant.generate_hash(), original.generate_hash());
        let new_root = Block::generate_merkle_tree(&vec![mutant.clone(), other.clone()])[0].clone();
        assert_ne!(new_root, old_root);
        // the old proof no longer carries the mutated leaf to the old root
        assert!(!verify_inclusion_proof(
            old_root.clone(),
            mutant.generate_hash(),
            &proof
        ));
    }
}

#[test]
fn leading_zero_counting() {
    assert_eq!(count_leading_zeros(&"0x00ab".to_string()), 2);
    assert_eq!(count_leading_zeros(&"0xab".to_string()), 0);
    assert_eq!(count_leading_zeros(&"00ab".to_string()), 0);
    assert_eq!(count_leading_zeros(&"0x".to_string()), 0);
    assert_eq!(count_leading_zeros(&"0x000".to_string()), 3);
    assert!(is_valid_hash(&"0x00ab".to_string(), 2));
    assert!(!is_valid_hash(&"0x00ab".to_string(), 3));
    assert!(is_valid_hash(&"0xab".to_string(), 0));
}

#[test]
fn mining_finds_minimal_nonce() {
    let root = zero_hash();
    let miner = "miner1".to_string();
    let prev = zero_hash();
    let (nonce, h) = calculate_hash(1, 1, &root, &miner, &prev, 1010, 2).unwrap();
    assert!(h.starts_with("0x0"));
    // the returned hash is the hash of the header string at that nonce
    let header = format!("{},{},{},{},{}, {}, {}, {}", 1, 1, miner, nonce, prev, 1010, 2, root);
    assert_eq!(h, sha_hex(&header));
    // no smaller nonce meets the target
    for m in 0..nonce {
        let header = format!("{},{},{},{},{}, {}, {}, {}", 1, 1, miner, m, prev, 1010, 2, root);
        let hm = sha_hex(&header);
        assert!(!hm.starts_with("0x0"));
    }
}

#[test]
fn difficulty_adjustment_rules() {
    // cap holds forever
    assert_eq!(calculate_difficulty(6, 10), 6);
    assert_eq!(calculate_difficulty(6, 400), 6);
    // heights of 300 and beyond force the cap (new height is height + 1)
    assert_eq!(calculate_difficulty(2, 299), 6);
    assert_eq!(calculate_difficulty(2, 500), 6);
    // every 50th new height raises by one
    assert_eq!(calculate_difficulty(2, 49), 3);
    assert_eq!(calculate_difficulty(2, 99), 3);
    // otherwise unchanged
    assert_eq!(calculate_difficulty(2, 48), 2);
    assert_eq!(calculate_difficulty(0, 0), 0);
    // never decreases along any run of heights
    let mut d: u8 = 0;
    for height in 0..310u16 {
        let next = calculate_difficulty(d, height);
        assert!(next >= d);
        assert!(next <= 6);
        d = next;
    }
    assert_eq!(d, 6);
}

#[test]
fn create_block_errors() {
    let mempool = vec![tx("a", "b", "s", 1, 0, 1)];
    let empty_chain: Vec<Block> = Vec::new();
    let addresses = vec!["addr1".to_string()];
    match create_block(&mempool, &empty_chain, &addresses, 0) {
        Err(e) => assert!(matches!(e, blok::service::BlockError::EmptyChain)),
        Ok(_) => panic!("expected an error on an empty chain"),
    }
    let chain = vec![genesis(1000, 0, &sha_hex("genesis"))];
    let no_addresses: Vec<String> = Vec::new();
    match create_block(&mempool, &chain, &no_addresses, 0) {
        Err(e) => assert!(matches!(e, blok::service::BlockError::EmptyAddressPool)),
        Ok(_) => panic!("expected an error on an empty address pool"),
    }
    let locked = vec![tx("a", "b", "s", 1, 99999, 1)];
    match create_block(&locked, &chain, &addresses, 0) {
        Err(e) => assert!(matches!(e, blok::service::BlockError::EmptyTransactionSet)),
        Ok(_) => panic!("expected an error when no transaction is eligible"),
    }
}

#[test]
fn create_block_genesis_scenario() {
    let h0 = sha_hex("genesis");
    let chain = vec![genesis(1000, 0, &h0)];
    let fee5 = tx("r5", "s5", "sig5", 50, 0, 5);
    let fee10 = tx("r10", "s10", "sig10", 100, 0, 10);
    let mempool = vec![fee5.clone(), fee10.clone()];
    let addresses = vec!["miner1".to_string()];
    let block = match create_block(&mempool, &chain, &addresses, 7) {
        Ok(b) => b,
        Err(_) => panic!("expected a block"),
    };
    assert_eq!(block.block_header.height, 1);
    assert_eq!(block.block_header.timestamp, 1010);
    assert_eq!(block.block_header.difficulty, 0);
    assert_eq!(block.block_header.previous_block_header_hash, h0);
    assert_eq!(block.block_header.miner, "miner1");
    assert_eq!(block.block_header.transactions_count, 2);
    assert_eq!(block.transactions.len(), 2);
    assert_eq!(block.transactions[0].transaction_fee, 10);
    assert_eq!(block.transactions[1].transaction_fee, 5);
    assert_eq!(block.merkle_tree.len(), 3);
    assert_eq!(
        block.block_header.transactions_merkle_root,
        combine_by_hand(&tx_hash_by_hand(&fee10), &tx_hash_by_hand(&fee5))
    );
    // difficulty 0: the very first nonce satisfies the target
    assert_eq!(block.block_header.nonce, 0);
    // independent recomputation of the header hash string
    let header = format!(
        "{},{},{},{},{}, {}, {}, {}",
        0, 1, "miner1", 0, h0, 1010, 2, block.block_header.transactions_merkle_root
    );
    assert_eq!(block.block_header.hash, sha_hex(&header));
}

#[test]
fn create_block_fee_priority() {
    let h0 = sha_hex("genesis");
    let chain = vec![genesis(1000, 0, &h0)];
    let addresses = vec!["m1".to_string(), "m2".to_string()];
    let mut mempool = Vec::new();
    for i in 0..105u64 {
        mempool.push(tx(&format!("r{}", i), "s", "sig", 1, 0, i));
    }
    // ineligible: locked past the new block's timestamp of 1010
    mempool.push(tx("late", "s", "sig", 1, 1011, 1000));
    // two transactions sharing the highest fee keep their arrival order
    mempool.push(tx("first_tie", "s", "sig", 1, 0, 104));
    let block = match create_block(&mempool, &chain, &addresses, 3) {
        Ok(b) => b,
        Err(_) => panic!("expected a block"),
    };
    assert_eq!(block.transactions.len(), 100);
    // highest fees first: 104, 104 (tie, arrival order), 103, ... down to 6
    assert_eq!(block.transactions[0].transaction_fee, 104);
    assert_eq!(block.transactions[0].receiver, "r104");
    assert_eq!(block.transactions[1].transaction_fee, 104);
    assert_eq!(block.transactions[1].receiver, "first_tie");
    for i in 2..100usize {
        assert_eq!(block.transactions[i].transaction_fee, (105 - i) as u64);
    }
    // the ineligible transaction is excluded
    assert!(block.transactions.iter().all(|t| t.receiver != "late"));
    // miner picked by the selector modulo the address count
    assert_eq!(block.block_header.miner, "m2");
}

#[test]
fn load_most_recent_hash_picks_latest_timestamp() {
    let mut c1 = genesis(100, 0, "0xaa");
    c1.block_header.hash = sha_hex("one");
    let mut c2 = genesis(200, 0, "0xbb");
    c2.block_header.hash = sha_hex("two");
    let chain = vec![c1, c2];
    assert_eq!(*load_most_recent_hash(&chain), sha_hex("two"));
    // among equal timestamps the last block wins
    let mut c3 = genesis(200, 0, "0xcc");
    c3.block_header.hash = sha_hex("three");
    let chain = vec![chain[0].clone(), chain[1].clone(), c3];
    assert_eq!(*load_most_recent_hash(&chain), sha_hex("three"));
}

#[test]
fn get_merkle_tree_caches_result() {
    let txs = vec![tx("a", "b", "s1", 1, 0, 1), tx("c", "d", "s2", 2, 0, 2)];
    let mut block = bare_block(txs);
    assert!(block.merkle_tree.is_empty());
    let t1 = block.get_merkle_tree();
    assert_eq!(t1.len(), 3);
    assert_eq!(block.merkle_tree, t1);
    let t2 = block.get_merkle_tree();
    assert_eq!(t1, t2);
}

#[test]
fn mempool_and_blockchain_stores() {
    let mut pool = Mempool::new();
    assert!(pool.get_transactions().is_empty());
    pool.add_transaction(tx("a", "b", "s", 1, 0, 1));
    pool.add_transaction(tx("c", "d", "s2", 2, 0, 2));
    assert_eq!(pool.get_transactions().len(), 2);
    assert_eq!(pool.get_transactions()[0].receiver, "a");
    assert_eq!(pool.get_transactions()[1].receiver, "c");

    let mut chain = Blockchain::new();
    assert!(chain.get_blocks().is_empty());
    chain.add_block(genesis(1000, 0, "0xaa"));
    assert_eq!(chain.get_blocks().len(), 1);
    assert_eq!(chain.get_blocks()[0].block_header.timestamp, 1000);
}
