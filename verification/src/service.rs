//! Block assembly: finding the chain tip, difficulty adjustment,
//! proof-of-work mining, and inclusion proofs over a block's Merkle tree.

use crate::primitives::combine;
use crate::primitives::leaf_hashes;
use crate::primitives::lemma_tree_height_bounds;
use crate::primitives::merkle_root;
use crate::primitives::node_hash;
use crate::primitives::tx_hash;
use crate::primitives::merkle_tree_spec;
use crate::primitives::pow2;
use crate::primitives::str_seq_view;
use crate::primitives::tree_height;
use crate::primitives::Block;
use crate::primitives::BlockHeader;
use crate::primitives::Transaction;
use crate::primitives::lemma_combine_symmetric;
use crate::primitives::lemma_pow2_pos;
use crate::selection::select_transactions;
use crate::selection::selected_txs;
use crate::util::dec_str;
use crate::util::hash;
use crate::util::hash_str;
use crate::util::u64_to_string;
use vstd::prelude::*;
use vstd::string::StrSliceExecFns;
use vstd::string::StringExecFns;

verus! {

broadcast use vstd::string::group_string_axioms;

/// Why a block could not be assembled.
#[derive(Debug)]
pub enum BlockError {
    /// The chain is empty: there is no tip to extend.
    EmptyChain,
    /// No candidate miner address exists.
    EmptyAddressPool,
    /// No eligible transaction is left after filtering the mempool.
    EmptyTransactionSet,
    /// No nonce in the search range produced a hash meeting the target.
    NonceSpaceExhausted,
}

/// The index of the chain tip: the block with the greatest timestamp, the
/// last such block when several share it.
pub open spec fn tip_idx(chain: Seq<Block>) -> int
    decreases chain.len(),
{
    if chain.len() <= 1 {
        0
    } else {
        let r = tip_idx(chain.drop_last());
        if chain.last().block_header.timestamp >= chain[r].block_header.timestamp {
            chain.len() - 1
        } else {
            r
        }
    }
}

/// The tip's index is in range and its timestamp is maximal.
pub proof fn lemma_tip_idx(chain: Seq<Block>)
    requires
        chain.len() >= 1,
    ensures
        0 <= tip_idx(chain) < chain.len(),
        forall|j: int|
            0 <= j < chain.len() ==> (#[trigger] chain[j].block_header.timestamp) <= chain[tip_idx(
                chain,
            )].block_header.timestamp,
    decreases chain.len(),
{
    if chain.len() > 1 {
        lemma_tip_idx(chain.drop_last());
        let d = chain.drop_last();
        let r = tip_idx(d);
        let tl = chain.len() - 1;
        assert forall|j: int|
            0 <= j < chain.len() implies (#[trigger] chain[j].block_header.timestamp) <= chain[
            tip_idx(chain)].block_header.timestamp by {
            assert(d[r] == chain[r]);
            assert(chain.last() == chain[tl]);
            if j < tl {
                assert(d[j] == chain[j]);
                assert(d[j].block_header.timestamp <= d[r].block_header.timestamp);
            }
            if chain.last().block_header.timestamp >= d[r].block_header.timestamp {
                assert(tip_idx(chain) == tl);
            } else {
                assert(tip_idx(chain) == r);
            }
        }
    }
}

/// The hash of the block with the greatest timestamp.
pub fn load_most_recent_hash(blocks: &Vec<Block>) -> (r: &crate::Hash)
    requires
        blocks@.len() >= 1,
    ensures
        *r == blocks@[tip_idx(blocks@)].block_header.hash,
{
    let best = find_tip(blocks);
    &blocks[best].block_header.hash
}

/// The index of the block with the greatest timestamp.
fn find_tip(blocks: &Vec<Block>) -> (r: usize)
    requires
        blocks@.len() >= 1,
    ensures
        r as int == tip_idx(blocks@),
        r < blocks@.len(),
{
    let mut best: usize = 0;
    let mut k: usize = 1;
    proof {
        assert(blocks@.take(1).len() == 1);
        assert(tip_idx(blocks@.take(1)) == 0);
    }
    while k < blocks.len()
        invariant
            1 <= k <= blocks@.len(),
            best < k,
            best as int == tip_idx(blocks@.take(k as int)),
        decreases blocks@.len() - k,
    {
        proof {
            assert(blocks@.take(k + 1).drop_last() =~= blocks@.take(k as int));
            assert(blocks@.take(k + 1).last() == blocks@[k as int]);
        }
        if blocks[k].block_header.timestamp >= blocks[best].block_header.timestamp {
            best = k;
        }
        k = k + 1;
    }
    proof {
        assert(blocks@.take(blocks@.len() as int) =~= blocks@);
        lemma_tip_idx(blocks@);
    }
    best
}

/// The difficulty of the next block: at height 300 and beyond it is the cap
/// of 6, every 50th height raises it by one, and once at 6 it stays there.
/// The rule reads the height of the block after the one being assembled,
/// `height + 1`, keeping the caller's off-by-one convention.
pub open spec fn next_difficulty(prev: nat, height: nat) -> nat {
    let new_height = height + 1;
    if prev == 6 {
        6
    } else if new_height >= 300 {
        6
    } else if new_height % 50 == 0 {
        prev + 1
    } else {
        prev
    }
}

/// Difficulty never decreases along a chain and is capped at 6; once the cap
/// is reached it is kept forever.
pub proof fn lemma_difficulty_monotonic(prev: nat, height: nat)
    requires
        prev <= 6,
    ensures
        next_difficulty(prev, height) >= prev,
        next_difficulty(prev, height) <= 6,
        prev == 6 ==> next_difficulty(prev, height) == 6,
{
}

/// Difficulty for the block of height `height + 1` extending a tip of
/// difficulty `prev_difficulty`.
pub fn calculate_difficulty(prev_difficulty: u8, height: u16) -> (r: u8)
    requires
        prev_difficulty <= 6,
        height + 1 <= u16::MAX,
    ensures
        r as nat == next_difficulty(prev_difficulty as nat, height as nat),
        r <= 6,
{
    let new_height = height + 1;
    if prev_difficulty == 6 {
        prev_difficulty
    } else if new_height >= 300 {
        6
    } else if new_height % 50 == 0 {
        prev_difficulty + 1
    } else {
        prev_difficulty
    }
}

/// The run of `'0'` characters in `s` from position `i` on.
pub open spec fn zero_run(s: Seq<char>, i: int) -> nat
    decreases s.len() - i,
    when 0 <= i
{
    if i < s.len() && s[i] == '0' {
        1 + zero_run(s, i + 1)
    } else {
        0
    }
}

/// How many `'0'` characters follow the `0x` prefix; 0 when the prefix is
/// missing.
pub open spec fn leading_zero_count(s: Seq<char>) -> nat {
    if s.len() >= 2 && s[0] == '0' && s[1] == 'x' {
        zero_run(s, 2)
    } else {
        0
    }
}

/// A hash string meets difficulty `d` when at least `d` zero hex digits
/// follow its `0x` prefix.
pub open spec fn spec_valid_hash(s: Seq<char>, d: nat) -> bool {
    leading_zero_count(s) >= d
}

/// The number of `'0'` characters immediately after the `0x` prefix.
pub fn count_leading_zeros(hex: &String) -> (r: usize)
    ensures
        r as nat == leading_zero_count(hex@),
{
    proof {
        reveal_strlit("0");
        reveal_strlit("x");
    }
    let s = hex.as_str();
    let len = s.unicode_len();
    if len < 2 {
        return 0;
    }
    if !(s.get_char(0) == '0' && s.get_char(1) == 'x') {
        return 0;
    }
    let mut i: usize = 2;
    loop
        invariant
            2 <= i <= len,
            len == s@.len(),
            s@[0] == '0' && s@[1] == 'x',
            s@ == hex@,
            zero_run(s@, 2) == i - 2 + zero_run(s@, i as int),
        decreases len - i,
    {
        if i >= len {
            return i - 2;
        }
        if s.get_char(i) != '0' {
            return i - 2;
        }
        i = i + 1;
    }
}

/// Whether `hash` meets difficulty `difficulty`.
pub fn is_valid_hash(hash: &String, difficulty: u8) -> (r: bool)
    ensures
        r == spec_valid_hash(hash@, difficulty as nat),
{
    count_leading_zeros(hash) >= (difficulty as usize)
}

/// The delimited header string hashed during mining, in the fixed field order
/// difficulty, height, miner, nonce, previous hash, timestamp, transaction
/// count, merkle root.
pub open spec fn header_encoding(
    difficulty: nat,
    height: nat,
    miner: Seq<char>,
    nonce: nat,
    prev: Seq<char>,
    timestamp: nat,
    count: nat,
    root: Seq<char>,
) -> Seq<char> {
    dec_str(difficulty) + seq![','] + dec_str(height) + seq![','] + miner + seq![','] + dec_str(
        nonce,
    ) + seq![','] + prev + seq![',', ' '] + dec_str(timestamp) + seq![',', ' '] + dec_str(count)
        + seq![',', ' '] + root
}

/// The header hash a given nonce produces.
pub open spec fn pow_hash(
    difficulty: nat,
    height: nat,
    miner: Seq<char>,
    nonce: nat,
    prev: Seq<char>,
    timestamp: nat,
    count: nat,
    root: Seq<char>,
) -> Seq<char> {
    hash_str(header_encoding(difficulty, height, miner, nonce, prev, timestamp, count, root))
}

fn header_string(
    difficulty: u8,
    height: u16,
    miner: &String,
    nonce: usize,
    prev: &String,
    timestamp: u64,
    count: u32,
    root: &String,
) -> (r: String)
    ensures
        r@ == header_encoding(
            difficulty as nat,
            height as nat,
            miner@,
            nonce as nat,
            prev@,
            timestamp as nat,
            count as nat,
            root@,
        ),
{
    proof {
        reveal_strlit(",");
        reveal_strlit(", ");
    }
    let mut s = u64_to_string(difficulty as u64);
    s.append(",");
    s.append(u64_to_string(height as u64).as_str());
    s.append(",");
    s.append(miner.as_str());
    s.append(",");
    s.append(u64_to_string(nonce as u64).as_str());
    s.append(",");
    s.append(prev.as_str());
    s.append(", ");
    s.append(u64_to_string(timestamp).as_str());
    s.append(", ");
    s.append(u64_to_string(count as u64).as_str());
    s.append(", ");
    s.append(root.as_str());
    proof {
        assert(s@ =~= header_encoding(
            difficulty as nat,
            height as nat,
            miner@,
            nonce as nat,
            prev@,
            timestamp as nat,
            count as nat,
            root@,
        ));
    }
    s
}

/// Brute-force nonce search: starting from 0, hash the header string until
/// the hash meets the difficulty target. Returns the smallest satisfying
/// nonce with its hash, and nothing only if no nonce in the whole search
/// range satisfies the target.
pub fn calculate_hash(
    difficulty: u8,
    height: u16,
    transactions_merkle_root: &String,
    miner: &String,
    previous_block_header_hash: &String,
    new_timestamp: u64,
    transactions_count: u32,
) -> (r: Option<(usize, String)>)
    ensures
        match r {
            Some(pair) => {
                &&& pair.1@ == pow_hash(
                    difficulty as nat,
                    height as nat,
                    miner@,
                    pair.0 as nat,
                    previous_block_header_hash@,
                    new_timestamp as nat,
                    transactions_count as nat,
                    transactions_merkle_root@,
                )
                &&& spec_valid_hash(pair.1@, difficulty as nat)
                &&& forall|m: nat|
                    m < pair.0 as nat ==> !spec_valid_hash(
                        #[trigger] pow_hash(
                            difficulty as nat,
                            height as nat,
                            miner@,
                            m,
                            previous_block_header_hash@,
                            new_timestamp as nat,
                            transactions_count as nat,
                            transactions_merkle_root@,
                        ),
                        difficulty as nat,
                    )
            },
            None => forall|m: nat|
                m <= usize::MAX as nat ==> !spec_valid_hash(
                    #[trigger] pow_hash(
                        difficulty as nat,
                        height as nat,
                        miner@,
                        m,
                        previous_block_header_hash@,
                        new_timestamp as nat,
                        transactions_count as nat,
                        transactions_merkle_root@,
                    ),
                    difficulty as nat,
                ),
        },
{
    let mut nonce: usize = 0;
    loop
        invariant
            forall|m: nat|
                m < nonce as nat ==> !spec_valid_hash(
                    #[trigger] pow_hash(
                        difficulty as nat,
                        height as nat,
                        miner@,
                        m,
                        previous_block_header_hash@,
                        new_timestamp as nat,
                        transactions_count as nat,
                        transactions_merkle_root@,
                    ),
                    difficulty as nat,
                ),
        decreases usize::MAX - nonce,
    {
        let header = header_string(
            difficulty,
            height,
            miner,
            nonce,
            previous_block_header_hash,
            new_timestamp,
            transactions_count,
            transactions_merkle_root,
        );
        let current_hash = hash(&header);
        if is_valid_hash(&current_hash, difficulty) {
            return Some((nonce, current_hash));
        }
        if nonce == usize::MAX {
            return None;
        }
        nonce = nonce + 1;
    }
}

/// The index of the other child of a node's parent.
pub open spec fn sibling_index(i: int) -> int {
    if i % 2 == 1 {
        i + 1
    } else {
        i - 1
    }
}

/// The sibling hashes met on the walk from node `i` up to the root: at each
/// level the hash of the other child of the current node's parent.
pub open spec fn sibling_path(tree: Seq<Seq<char>>, i: int) -> Seq<Seq<char>>
    decreases i,
    when i >= 0
{
    if i <= 0 {
        Seq::<Seq<char>>::empty()
    } else {
        seq![tree[sibling_index(i)]] + sibling_path(tree, (i - 1) / 2)
    }
}

/// Fold a leaf hash up a sibling path: combine with each sibling in turn,
/// exactly as the tree builder combines children.
pub open spec fn fold_path(leaf: Seq<char>, path: Seq<Seq<char>>) -> Seq<char>
    decreases path.len(),
{
    if path.len() == 0 {
        leaf
    } else {
        fold_path(combine(leaf, path[0]), path.drop_first())
    }
}

/// The sibling-hash path proving that the leaf at position
/// `transaction_number` belongs to the block's Merkle tree; empty when no
/// leaf slot with that position exists.
pub fn produce_inclusion_proof(block: &mut Block, transaction_number: usize) -> (r: Vec<String>)
    requires
        1 <= old(block).transactions@.len() <= usize::MAX / 4,
        old(block).cache_wf(),
    ensures
        final(block).block_header == old(block).block_header,
        final(block).transactions@ == old(block).transactions@,
        final(block).cache_wf(),
        ({
            let txs = old(block).transactions@;
            let tree = merkle_tree_spec(txs);
            let base = pow2(tree_height(txs.len())) - 1;
            &&& transaction_number as int >= pow2(tree_height(txs.len())) ==> r@.len() == 0
            &&& (transaction_number as int) < pow2(tree_height(txs.len())) ==> str_seq_view(r@)
                == sibling_path(tree, base + transaction_number as int)
        }),
{
    let tree = block.get_merkle_tree();
    let ghost txs = old(block).transactions@;
    let ghost h = tree_height(txs.len());
    let ghost tv = str_seq_view(tree@);
    let len = tree.len();
    proof {
        lemma_pow2_pos(h);
        assert(pow2((h + 1) as nat) == 2 * pow2(h));
        assert(merkle_tree_spec(txs).len() == pow2((h + 1) as nat) - 1);
        assert(str_seq_view(tree@).len() == tree@.len());
        assert(len == 2 * pow2(h) - 1);
    }
    let leaf_base = len / 2;
    proof {
        assert(leaf_base as int == pow2(h) - 1);
    }
    if transaction_number > leaf_base {
        return Vec::new();
    }
    let mut idx = leaf_base + transaction_number;
    let ghost start = idx as int;
    let mut siblings: Vec<String> = Vec::new();
    proof {
        assert(sibling_path(tv, start) =~= str_seq_view(siblings@) + sibling_path(tv, start));
    }
    while idx > 0
        invariant
            tv == str_seq_view(tree@),
            tree@.len() == len,
            len == 2 * leaf_base + 1,
            idx < len,
            sibling_path(tv, start) =~= str_seq_view(siblings@) + sibling_path(tv, idx as int),
        decreases idx,
    {
        let sib: usize = if idx % 2 == 1 {
            proof {
                assert((2 * leaf_base) % 2 == 0);
                assert(idx != 2 * leaf_base);
                assert(idx + 1 < len);
            }
            idx + 1
        } else {
            idx - 1
        };
        proof {
            assert(sib as int == sibling_index(idx as int));
        }
        let ghost prev_view = str_seq_view(siblings@);
        let ghost prev_idx = idx as int;
        siblings.push(tree[sib].clone());
        idx = (idx - 1) / 2;
        proof {
            assert(str_seq_view(siblings@) =~= prev_view.push(tv[sibling_index(prev_idx)]));
            assert(sibling_path(tv, prev_idx) == seq![tv[sibling_index(prev_idx)]] + sibling_path(
                tv,
                (prev_idx - 1) / 2,
            ));
            assert(sibling_path(tv, start) =~= str_seq_view(siblings@) + sibling_path(
                tv,
                idx as int,
            ));
        }
    }
    proof {
        assert(sibling_path(tv, 0) =~= Seq::<Seq<char>>::empty());
        assert(str_seq_view(siblings@) =~= sibling_path(tv, start));
    }
    siblings
}

/// Inclusion proof for a block whose tree has not been cached yet: the cache
/// is computed here, then walked as `produce_inclusion_proof` does. A block
/// whose cache is already populated is left untouched and gets no proof from
/// this function; ask `produce_inclusion_proof` with its cached tree instead.
pub fn produce_inclusion_proof_uncached(block: &mut Block, transaction_number: usize) -> (r:
    Option<Vec<String>>)
    requires
        1 <= old(block).transactions@.len() <= usize::MAX / 4,
    ensures
        old(block).merkle_tree@.len() != 0 ==> r is None && *final(block) == *old(block),
        old(block).merkle_tree@.len() == 0 ==> ({
            let txs = old(block).transactions@;
            let tree = merkle_tree_spec(txs);
            let base = pow2(tree_height(txs.len())) - 1;
            &&& final(block).block_header == old(block).block_header
            &&& final(block).transactions@ == old(block).transactions@
            &&& final(block).cache_wf()
            &&& r matches Some(v) ==> {
                &&& transaction_number as int >= pow2(tree_height(txs.len())) ==> v@.len() == 0
                &&& (transaction_number as int) < pow2(tree_height(txs.len())) ==> str_seq_view(
                    v@,
                ) == sibling_path(tree, base + transaction_number as int)
            }
            &&& r is Some
        }),
{
    if block.merkle_tree.len() == 0 {
        Some(produce_inclusion_proof(block, transaction_number))
    } else {
        None
    }
}

/// Recompute the root from a leaf hash and a sibling path and compare it to
/// `root_hash`: true exactly when the folded path reaches the root.
pub fn verify_inclusion_proof(
    root_hash: String,
    transaction_hash: String,
    proof_hashes: &Vec<String>,
) -> (r: bool)
    ensures
        r == (fold_path(transaction_hash@, str_seq_view(proof_hashes@)) == root_hash@),
{
    let ghost leaf0 = transaction_hash@;
    let ghost pv = str_seq_view(proof_hashes@);
    let mut current_hash = transaction_hash;
    let mut i: usize = 0;
    proof {
        assert(pv.skip(0) =~= pv);
    }
    while i < proof_hashes.len()
        invariant
            i <= proof_hashes@.len(),
            pv == str_seq_view(proof_hashes@),
            fold_path(leaf0, pv) == fold_path(current_hash@, pv.skip(i as int)),
        decreases proof_hashes@.len() - i,
    {
        let next = crate::primitives::combine_hashes(&current_hash, &proof_hashes[i]);
        proof {
            assert(pv.skip(i as int)[0] == proof_hashes@[i as int]@);
            assert(pv.skip(i as int).drop_first() =~= pv.skip(i + 1));
        }
        current_hash = next;
        i = i + 1;
    }
    proof {
        assert(pv.skip(proof_hashes@.len() as int) =~= Seq::<Seq<char>>::empty());
    }
    current_hash == root_hash
}

proof fn lemma_fold_path_to_root(leaves: Seq<Seq<char>>, h: nat, i: int)
    requires
        leaves.len() == pow2(h),
        0 <= i < pow2((h + 1) as nat) - 1,
    ensures
        ({
            let tree = Seq::new(
                (pow2((h + 1) as nat) - 1) as nat,
                |j: int| node_hash(leaves, h, j),
            );
            fold_path(node_hash(leaves, h, i), sibling_path(tree, i)) == node_hash(leaves, h, 0)
        }),
    decreases i,
{
    let size = pow2((h + 1) as nat) - 1;
    let tree = Seq::new(size as nat, |j: int| node_hash(leaves, h, j));
    assert(pow2((h + 1) as nat) == 2 * pow2(h));
    lemma_pow2_pos(h);
    if i == 0 {
        assert(sibling_path(tree, 0) =~= Seq::<Seq<char>>::empty());
    } else {
        let p = (i - 1) / 2;
        let base = pow2(h) - 1;
        let sib = sibling_index(i);
        if i % 2 == 1 {
            assert(i == 2 * p + 1);
            assert(sib == 2 * p + 2);
        } else {
            assert(i == 2 * p + 2);
            assert(sib == 2 * p + 1);
        }
        assert(0 <= p < base);
        assert(node_hash(leaves, h, p) == combine(
            node_hash(leaves, h, 2 * p + 1),
            node_hash(leaves, h, 2 * p + 2),
        ));
        assert(tree[sib] == node_hash(leaves, h, sib));
        let path = sibling_path(tree, i);
        assert(path == seq![tree[sib]] + sibling_path(tree, p));
        assert(path[0] == tree[sib]);
        assert(path.drop_first() =~= sibling_path(tree, p));
        if i % 2 == 1 {
            assert(combine(node_hash(leaves, h, i), tree[sib]) == node_hash(leaves, h, p));
        } else {
            lemma_combine_symmetric(node_hash(leaves, h, i), tree[sib]);
            assert(combine(node_hash(leaves, h, i), tree[sib]) == node_hash(leaves, h, p));
        }
        assert(fold_path(node_hash(leaves, h, i), path) == fold_path(
            node_hash(leaves, h, p),
            sibling_path(tree, p),
        ));
        lemma_fold_path_to_root(leaves, h, p);
    }
}

/// Round trip: for every leaf slot of the tree over a non-empty transaction
/// sequence, folding that leaf's hash up its sibling path reaches the root;
/// for a slot holding a transaction, the leaf's hash is that transaction's.
pub proof fn lemma_inclusion_proof_round_trip(txs: Seq<Transaction>, p: int)
    requires
        txs.len() >= 1,
        0 <= p < pow2(tree_height(txs.len())),
    ensures
        ({
            let tree = merkle_tree_spec(txs);
            let base = pow2(tree_height(txs.len())) - 1;
            &&& p < txs.len() ==> tree[base + p] == tx_hash(txs[p])
            &&& fold_path(tree[base + p], sibling_path(tree, base + p)) == merkle_root(txs)
        }),
{
    let h = tree_height(txs.len());
    let leaves = leaf_hashes(txs, h);
    lemma_tree_height_bounds(txs.len());
    lemma_pow2_pos(h);
    assert(pow2((h + 1) as nat) == 2 * pow2(h));
    let base = pow2(h) - 1;
    let tree = merkle_tree_spec(txs);
    let tree2 = Seq::new((pow2((h + 1) as nat) - 1) as nat, |j: int| node_hash(leaves, h, j));
    assert(tree =~= tree2);
    lemma_fold_path_to_root(leaves, h, base + p);
    assert(tree[base + p] == node_hash(leaves, h, base + p));
    if p < txs.len() {
        assert(node_hash(leaves, h, base + p) == leaves[p]);
    }
}

/// Everything that must hold of the tip a new block extends: room for its
/// timestamp and height to advance, and a difficulty within the 0 to 6 range.
pub open spec fn tip_extendable(chain: Seq<Block>) -> bool {
    let tip = chain[tip_idx(chain)].block_header;
    &&& tip.timestamp + 10 <= u64::MAX
    &&& tip.height + 2 <= u16::MAX
    &&& tip.difficulty <= 6
}

/// The difficulty the block extending the chain's tip carries.
pub open spec fn assembled_difficulty(chain: Seq<Block>) -> nat {
    let tip = chain[tip_idx(chain)].block_header;
    next_difficulty(tip.difficulty as nat, (tip.height + 1) as nat)
}

/// The header hash that nonce `m` produces for the block assembled from the
/// given mempool, chain and miner selection.
pub open spec fn assembled_hash(
    mempool: Seq<Transaction>,
    chain: Seq<Block>,
    addresses: Seq<String>,
    selector: u32,
    m: nat,
) -> Seq<char> {
    let tip = chain[tip_idx(chain)].block_header;
    let txs = selected_txs(mempool, (tip.timestamp + 10) as u64);
    pow_hash(
        assembled_difficulty(chain),
        (tip.height + 1) as nat,
        addresses[selector as int % addresses.len() as int]@,
        m,
        tip.hash@,
        (tip.timestamp + 10) as nat,
        txs.len(),
        merkle_root(txs),
    )
}

/// Assemble the block extending the chain's tip: filter, sort and cap the
/// mempool, build the Merkle tree, pick the miner by `selector` modulo the
/// address count, and mine the header. Fails when the chain, the address
/// pool, or the eligible transaction set is empty.
pub fn create_block(
    mempool: &Vec<Transaction>,
    blockchain: &Vec<Block>,
    addresses: &Vec<String>,
    selector: u32,
) -> (r: Result<Block, BlockError>)
    requires
        blockchain@.len() >= 1 ==> tip_extendable(blockchain@),
        addresses@.len() <= u32::MAX,
    ensures
        (blockchain@.len() == 0) <==> r == Err::<Block, BlockError>(BlockError::EmptyChain),
        (blockchain@.len() >= 1 && addresses@.len() == 0) <==> r == Err::<Block, BlockError>(
            BlockError::EmptyAddressPool,
        ),
        ({
            let tip = blockchain@[tip_idx(blockchain@)].block_header;
            (blockchain@.len() >= 1 && addresses@.len() >= 1 && selected_txs(
                mempool@,
                (tip.timestamp + 10) as u64,
            ).len() == 0) <==> r == Err::<Block, BlockError>(BlockError::EmptyTransactionSet)
        }),
        r == Err::<Block, BlockError>(BlockError::NonceSpaceExhausted) ==> forall|m: nat|
            m <= usize::MAX as nat ==> !spec_valid_hash(
                #[trigger] assembled_hash(mempool@, blockchain@, addresses@, selector, m),
                assembled_difficulty(blockchain@),
            ),
        r matches Ok(b) ==> ({
            let tip = blockchain@[tip_idx(blockchain@)].block_header;
            let txs = selected_txs(mempool@, (tip.timestamp + 10) as u64);
            &&& blockchain@.len() >= 1 && addresses@.len() >= 1 && txs.len() >= 1
            &&& b.transactions@ == txs
            &&& b.block_header.timestamp == tip.timestamp + 10
            &&& b.block_header.height == tip.height + 1
            &&& b.block_header.previous_block_header_hash == tip.hash
            &&& b.block_header.difficulty as nat == assembled_difficulty(blockchain@)
            &&& b.block_header.transactions_count as nat == txs.len()
            &&& b.block_header.miner == addresses@[selector as int % addresses@.len() as int]
            &&& str_seq_view(b.merkle_tree@) == merkle_tree_spec(txs)
            &&& b.cache_wf()
            &&& b.block_header.transactions_merkle_root@ == merkle_root(txs)
            &&& b.block_header.hash@ == assembled_hash(
                mempool@,
                blockchain@,
                addresses@,
                selector,
                b.block_header.nonce as nat,
            )
            &&& spec_valid_hash(b.block_header.hash@, assembled_difficulty(blockchain@))
            &&& forall|m: nat|
                m < b.block_header.nonce as nat ==> !spec_valid_hash(
                    #[trigger] assembled_hash(mempool@, blockchain@, addresses@, selector, m),
                    assembled_difficulty(blockchain@),
                )
        }),
{
    if blockchain.len() == 0 {
        return Err(BlockError::EmptyChain);
    }
    if addresses.len() == 0 {
        return Err(BlockError::EmptyAddressPool);
    }
    let best = find_tip(blockchain);
    let ghost tip = blockchain@[tip_idx(blockchain@)].block_header;
    let latest_timestamp = blockchain[best].block_header.timestamp;
    let new_timestamp = latest_timestamp + 10;
    let transactions = select_transactions(mempool, new_timestamp);
    if transactions.len() == 0 {
        return Err(BlockError::EmptyTransactionSet);
    }
    let ghost txs = transactions@;
    let merkle_tree = Block::generate_merkle_tree(&transactions);
    proof {
        lemma_pow2_pos(tree_height(txs.len()));
        assert(pow2((tree_height(txs.len()) + 1) as nat) == 2 * pow2(tree_height(txs.len())));
        assert(merkle_tree@.len() >= 1);
        assert(str_seq_view(merkle_tree@)[0] == merkle_tree@[0]@);
    }
    let transactions_merkle_root = merkle_tree[0].clone();
    let miner_idx = selector % (addresses.len() as u32);
    let miner = addresses[miner_idx as usize].clone();
    let height = blockchain[best].block_header.height + 1;
    let transactions_count = transactions.len() as u32;
    let previous_block_header_hash = blockchain[best].block_header.hash.clone();
    let difficulty = calculate_difficulty(blockchain[best].block_header.difficulty, height);
    let mined = calculate_hash(
        difficulty,
        height,
        &transactions_merkle_root,
        &miner,
        &previous_block_header_hash,
        new_timestamp,
        transactions_count,
    );
    proof {
        assert forall|m: nat|
            assembled_hash(mempool@, blockchain@, addresses@, selector, m) == pow_hash(
                difficulty as nat,
                height as nat,
                miner@,
                m,
                previous_block_header_hash@,
                new_timestamp as nat,
                transactions_count as nat,
                transactions_merkle_root@,
            ) by {
            assert(transactions_merkle_root@ == merkle_root(txs));
        }
    }
    match mined {
        None => Err(BlockError::NonceSpaceExhausted),
        Some((nonce, block_hash)) => Ok(
            Block {
                block_header: BlockHeader {
                    difficulty,
                    hash: block_hash,
                    height,
                    miner,
                    nonce,
                    previous_block_header_hash,
                    timestamp: new_timestamp,
                    transactions_count,
                    transactions_merkle_root,
                },
                transactions,
                merkle_tree,
            },
        ),
    }
}

} // verus!
