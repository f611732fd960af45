//! The chain's data types and the Merkle tree built over a block's
//! transactions.
//!
//! The tree is a complete binary tree kept as a flat array: for `n`
//! transactions (`n >= 1`) its height is the smallest `h` with `2^h >= n`,
//! the array holds `2^(h+1) - 1` hash strings, leaves sit at indices
//! `[2^h - 1, 2^h - 1 + n)` in transaction order, unused leaf slots hold the
//! zero hash, and each inner node hashes the concatenation of its children in
//! lexicographic order, so that sibling order cannot change a parent's value.

use crate::util::dec_str;
use crate::util::hash;
use crate::util::hash_str;
use crate::util::lemma_str_lt_total;
use crate::util::str_lt;
use crate::util::str_less_than;
use crate::util::u64_to_string;
use vstd::prelude::*;
use vstd::string::StringExecFns;

verus! {

broadcast use vstd::string::group_string_axioms;

pub type BlockChain = Vec<Block>;

pub struct Transaction {
    pub receiver: String,
    pub lock_time: u64,
    pub amount: u64,
    pub sender: String,
    pub signature: String,
    pub transaction_fee: u64,
}

impl Clone for Transaction {
    fn clone(&self) -> (r: Self)
        ensures
            r == *self,
    {
        Transaction {
            receiver: self.receiver.clone(),
            lock_time: self.lock_time,
            amount: self.amount,
            sender: self.sender.clone(),
            signature: self.signature.clone(),
            transaction_fee: self.transaction_fee,
        }
    }
}

pub struct BlockHeader {
    pub difficulty: u8,
    pub hash: crate::Hash,
    pub height: u16,
    pub miner: String,
    pub nonce: usize,
    pub previous_block_header_hash: crate::Hash,
    pub timestamp: u64,
    pub transactions_count: u32,
    pub transactions_merkle_root: String,
}

impl Clone for BlockHeader {
    fn clone(&self) -> (r: Self)
        ensures
            r == *self,
    {
        BlockHeader {
            difficulty: self.difficulty,
            hash: self.hash.clone(),
            height: self.height,
            miner: self.miner.clone(),
            nonce: self.nonce,
            previous_block_header_hash: self.previous_block_header_hash.clone(),
            timestamp: self.timestamp,
            transactions_count: self.transactions_count,
            transactions_merkle_root: self.transactions_merkle_root.clone(),
        }
    }
}

pub struct Block {
    pub block_header: BlockHeader,
    pub transactions: Vec<Transaction>,
    pub merkle_tree: Vec<String>,
}

impl Clone for Block {
    fn clone(&self) -> (r: Self)
        ensures
            r.block_header == self.block_header,
            r.transactions@ == self.transactions@,
            r.merkle_tree@ == self.merkle_tree@,
    {
        let r = Block {
            block_header: self.block_header.clone(),
            transactions: self.transactions.clone(),
            merkle_tree: self.merkle_tree.clone(),
        };
        proof {
            assert(r.transactions@ =~= self.transactions@);
            assert(r.merkle_tree@ =~= self.merkle_tree@);
        }
        r
    }
}

/// The canonical comma-joined encoding of a transaction's six fields, in the
/// fixed order amount, lock_time, receiver, sender, signature,
/// transaction_fee, numbers in decimal.
pub open spec fn tx_encoding(t: Transaction) -> Seq<char> {
    dec_str(t.amount as nat) + seq![','] + dec_str(t.lock_time as nat) + seq![','] + t.receiver@
        + seq![','] + t.sender@ + seq![','] + t.signature@ + seq![','] + dec_str(
        t.transaction_fee as nat,
    )
}

/// The hash string of a transaction's canonical encoding.
pub open spec fn tx_hash(t: Transaction) -> Seq<char> {
    hash_str(tx_encoding(t))
}

impl Transaction {
    /// Hash of the comma-joined encoding of the transaction's fields.
    pub fn generate_hash(&self) -> (r: String)
        ensures
            r@ == tx_hash(*self),
            r@.len() == 66,
    {
        proof {
            reveal_strlit(",");
        }
        let mut raw = u64_to_string(self.amount);
        raw.append(",");
        raw.append(u64_to_string(self.lock_time).as_str());
        raw.append(",");
        raw.append(self.receiver.as_str());
        raw.append(",");
        raw.append(self.sender.as_str());
        raw.append(",");
        raw.append(self.signature.as_str());
        raw.append(",");
        raw.append(u64_to_string(self.transaction_fee).as_str());
        proof {
            assert(raw@ =~= tx_encoding(*self));
        }
        hash(&raw)
    }
}

/// 2 to the power `e`.
pub open spec fn pow2(e: nat) -> nat
    decreases e,
{
    if e == 0 {
        1
    } else {
        2 * pow2((e - 1) as nat)
    }
}

pub proof fn lemma_pow2_pos(e: nat)
    ensures
        pow2(e) >= 1,
    decreases e,
{
    if e > 0 {
        lemma_pow2_pos((e - 1) as nat);
    }
}

pub proof fn lemma_pow2_mono(a: nat, b: nat)
    requires
        a <= b,
    ensures
        pow2(a) <= pow2(b),
    decreases b,
{
    if a < b {
        lemma_pow2_mono(a, (b - 1) as nat);
        lemma_pow2_pos(a);
    }
}

pub proof fn lemma_pow2_gt(e: nat)
    ensures
        pow2(e) > e,
    decreases e,
{
    if e > 0 {
        lemma_pow2_gt((e - 1) as nat);
    }
}

/// Height of the smallest complete binary tree with at least `n` leaves:
/// the least `h` with `2^h >= n`.
pub open spec fn tree_height(n: nat) -> nat
    decreases n,
{
    if n <= 1 {
        0
    } else {
        1 + tree_height(((n + 1) / 2) as nat)
    }
}

pub proof fn lemma_tree_height_bounds(n: nat)
    requires
        n >= 1,
    ensures
        pow2(tree_height(n)) >= n,
        tree_height(n) > 0 ==> pow2((tree_height(n) - 1) as nat) < n,
    decreases n,
{
    if n >= 2 {
        lemma_tree_height_bounds(((n + 1) / 2) as nat);
    }
}

/// `tree_height(n)` is the only `h` whose power of two reaches `n` while the
/// previous one falls short.
pub proof fn lemma_tree_height_unique(n: nat, h: nat)
    requires
        n >= 1,
        pow2(h) >= n,
        h > 0 ==> pow2((h - 1) as nat) < n,
    ensures
        h == tree_height(n),
{
    lemma_tree_height_bounds(n);
    let t = tree_height(n);
    if h < t {
        lemma_pow2_mono(h, (t - 1) as nat);
    }
    if h > t {
        lemma_pow2_mono(t, (h - 1) as nat);
    }
}

/// The sentinel hash filling unused leaf slots: `0x` and 64 zero digits.
pub open spec fn zero_hash() -> Seq<char> {
    seq!['0', 'x'] + Seq::new(64, |i: int| '0')
}

fn zero_hash_string() -> (r: String)
    ensures
        r@ == zero_hash(),
{
    let r = String::from_str("0x0000000000000000000000000000000000000000000000000000000000000000");
    proof {
        reveal_strlit("0x0000000000000000000000000000000000000000000000000000000000000000");
        assert(r@ =~= zero_hash());
    }
    r
}

/// The hash of an inner node over its two children: the two hash strings are
/// concatenated with the lexicographically smaller one first, then hashed, so
/// the result does not depend on which physical slot holds which sibling.
pub open spec fn combine(a: Seq<char>, b: Seq<char>) -> Seq<char> {
    if str_lt(a, b) {
        hash_str(a + b)
    } else {
        hash_str(b + a)
    }
}

/// Swapping the two children of a node leaves its hash unchanged.
pub proof fn lemma_combine_symmetric(a: Seq<char>, b: Seq<char>)
    ensures
        combine(a, b) == combine(b, a),
{
    lemma_str_lt_total(a, b);
}

pub(crate) fn combine_hashes(a: &String, b: &String) -> (r: String)
    ensures
        r@ == combine(a@, b@),
        r@.len() == 66,
{
    let mut s: String;
    if str_less_than(a.as_str(), b.as_str()) {
        s = a.clone();
        s.append(b.as_str());
    } else {
        s = b.clone();
        s.append(a.as_str());
    }
    hash(&s)
}

/// The `2^h` leaf hashes of a tree of height `h`: the transactions' hashes in
/// input order, then zero hashes for the unused slots.
pub open spec fn leaf_hashes(txs: Seq<Transaction>, h: nat) -> Seq<Seq<char>> {
    Seq::new(
        pow2(h),
        |i: int|
            if i < txs.len() {
                tx_hash(txs[i])
            } else {
                zero_hash()
            },
    )
}

/// The hash at index `i` of the complete binary tree of height `h` over the
/// given leaf hashes: the leaf itself at leaf indices, and the combination of
/// the two children below.
pub open spec fn node_hash(leaves: Seq<Seq<char>>, h: nat, i: int) -> Seq<char>
    decreases pow2((h + 1) as nat) - 1 - i,
    when 0 <= i < pow2((h + 1) as nat) - 1 && leaves.len() == pow2(h)
{
    let base = pow2(h) - 1;
    if i >= base {
        leaves[i - base]
    } else {
        combine(node_hash(leaves, h, 2 * i + 1), node_hash(leaves, h, 2 * i + 2))
    }
}

/// The whole Merkle tree over a transaction sequence, as the flat array of
/// its node hashes.
pub open spec fn merkle_tree_spec(txs: Seq<Transaction>) -> Seq<Seq<char>> {
    let h = tree_height(txs.len());
    Seq::new((pow2((h + 1) as nat) - 1) as nat, |i: int| node_hash(leaf_hashes(txs, h), h, i))
}

/// The root of the Merkle tree over a transaction sequence.
pub open spec fn merkle_root(txs: Seq<Transaction>) -> Seq<char> {
    merkle_tree_spec(txs)[0]
}

/// The views of a sequence of strings.
pub open spec fn str_seq_view(s: Seq<String>) -> Seq<Seq<char>> {
    Seq::new(s.len(), |i: int| s[i]@)
}

impl Block {
    /// The cached tree, if present, is exactly the tree of the block's
    /// transactions; it is only ever filled by construction.
    pub open spec fn cache_wf(self) -> bool {
        self.merkle_tree@.len() == 0 || str_seq_view(self.merkle_tree@) == merkle_tree_spec(
            self.transactions@,
        )
    }

    /// The block's Merkle tree, computed on first use and cached thereafter:
    /// a populated cache is returned as it stands, never recomputed.
    pub fn get_merkle_tree(&mut self) -> (r: Vec<String>)
        requires
            1 <= old(self).transactions@.len() <= usize::MAX / 4,
            old(self).cache_wf(),
        ensures
            final(self).block_header == old(self).block_header,
            final(self).transactions@ == old(self).transactions@,
            old(self).merkle_tree@.len() > 0 ==> final(self).merkle_tree@ == old(
                self,
            ).merkle_tree@,
            final(self).cache_wf(),
            final(self).merkle_tree@.len() > 0,
            r@ == final(self).merkle_tree@,
            str_seq_view(r@) == merkle_tree_spec(old(self).transactions@),
    {
        if self.merkle_tree.len() == 0 {
            self.merkle_tree = Block::generate_merkle_tree(&self.transactions);
        }
        let r = self.merkle_tree.clone();
        proof {
            assert(r@ =~= self.merkle_tree@);
            lemma_pow2_pos((tree_height(self.transactions@.len()) + 1) as nat);
        }
        r
    }

    /// Build the Merkle tree over an ordered, non-empty transaction sequence.
    /// The result is a function of the sequence alone: rebuilding from the
    /// same transactions yields the identical array.
    pub fn generate_merkle_tree(transactions: &Vec<Transaction>) -> (r: Vec<String>)
        requires
            1 <= transactions@.len() <= usize::MAX / 4,
        ensures
            str_seq_view(r@) == merkle_tree_spec(transactions@),
            r@.len() == merkle_tree_spec(transactions@).len(),
    {
        let ghost txs = transactions@;
        let n = transactions.len();

        // Height: the smallest h with 2^h >= n.
        let mut h: usize = 0;
        let mut p: usize = 1;
        while p < n
            invariant
                n == txs.len(),
                1 <= n <= usize::MAX / 4,
                p == pow2(h as nat),
                h > 0 ==> pow2((h - 1) as nat) < n,
                p <= 2 * n,
            decreases 2 * n - p,
        {
            proof {
                lemma_pow2_gt(h as nat);
            }
            h = h + 1;
            p = 2 * p;
        }
        proof {
            lemma_tree_height_unique(n as nat, h as nat);
        }
        let ghost hh = h as nat;
        let ghost leaves = leaf_hashes(txs, hh);
        let size = 2 * p - 1;
        let leaf_base = p - 1;

        // Every slot starts as the zero hash.
        let zero = zero_hash_string();
        let mut tree: Vec<String> = Vec::new();
        while tree.len() < size
            invariant
                zero@ == zero_hash(),
                tree@.len() <= size,
                forall|j: int| 0 <= j < tree@.len() ==> tree@[j]@ == zero_hash(),
            decreases size - tree@.len(),
        {
            tree.push(zero.clone());
        }

        // Leaves take the transactions' hashes, in input order.
        let mut k: usize = 0;
        while k < n
            invariant
                txs == transactions@,
                n == txs.len(),
                k <= n,
                tree@.len() == size,
                size == 2 * p - 1,
                leaf_base == p - 1,
                p == pow2(hh),
                n <= p,
                forall|j: int| 0 <= j < leaf_base ==> tree@[j]@ == zero_hash(),
                forall|j: int|
                    leaf_base <= j < leaf_base + k ==> tree@[j]@ == tx_hash(txs[j - leaf_base]),
                forall|j: int| leaf_base + k <= j < size ==> tree@[j]@ == zero_hash(),
            decreases n - k,
        {
            let th = transactions[k].generate_hash();
            tree[leaf_base + k] = th;
            k = k + 1;
        }

        proof {
            assert forall|j: int| leaf_base <= j < size implies tree@[j]@ == node_hash(
                leaves,
                hh,
                j,
            ) by {
                assert(leaves[j - leaf_base] == tree@[j]@);
            }
        }

        // Inner nodes, bottom-up: each combines its two children.
        let mut i: usize = leaf_base;
        while i > 0
            invariant
                tree@.len() == size,
                size == 2 * p - 1,
                leaf_base == p - 1,
                p == pow2(hh),
                i <= leaf_base,
                leaves.len() == pow2(hh),
                forall|j: int| i <= j < size ==> tree@[j]@ == node_hash(leaves, hh, j),
            decreases i,
        {
            i = i - 1;
            let parent = combine_hashes(&tree[2 * i + 1], &tree[2 * i + 2]);
            tree[i] = parent;
            proof {
                assert(pow2((hh + 1) as nat) == 2 * pow2(hh));
                let ii = i as int;
                assert(node_hash(leaves, hh, ii) == combine(
                    node_hash(leaves, hh, 2 * ii + 1),
                    node_hash(leaves, hh, 2 * ii + 2),
                ));
            }
        }

        proof {
            assert(str_seq_view(tree@) =~= merkle_tree_spec(txs));
        }
        tree
    }
}

/// Determinism of tree building: any two arrays whose views equal the tree of
/// one transaction sequence, as `generate_merkle_tree` ensures of every array
/// it returns, hold the same hash in every slot.
pub proof fn lemma_merkle_deterministic(txs: Seq<Transaction>, r1: Seq<String>, r2: Seq<String>)
    requires
        str_seq_view(r1) == merkle_tree_spec(txs),
        str_seq_view(r2) == merkle_tree_spec(txs),
    ensures
        r1.len() == r2.len(),
        forall|i: int| 0 <= i < r1.len() ==> r1[i]@ == r2[i]@,
{
    assert(str_seq_view(r1).len() == r1.len());
    assert(str_seq_view(r2).len() == r2.len());
    assert forall|i: int| 0 <= i < r1.len() implies r1[i]@ == r2[i]@ by {
        assert(str_seq_view(r1)[i] == r1[i]@);
        assert(str_seq_view(r2)[i] == r2[i]@);
    }
}

/// Sibling-order independence: the trees over `[a, b]` and `[b, a]` assign
/// the two leaves to swapped slots, yet share the same root hash.
pub proof fn lemma_sibling_order_independence(a: Transaction, b: Transaction)
    ensures
        merkle_root(seq![a, b]) == merkle_root(seq![b, a]),
{
    let sab = seq![a, b];
    let sba = seq![b, a];
    assert(pow2(0) == 1);
    assert(pow2(1) == 2);
    assert(pow2(2) == 4);
    assert(tree_height(1) == 0);
    assert(tree_height(2) == 1);
    let la = leaf_hashes(sab, 1);
    let lb = leaf_hashes(sba, 1);
    assert(node_hash(la, 1, 1) == tx_hash(a));
    assert(node_hash(la, 1, 2) == tx_hash(b));
    assert(node_hash(lb, 1, 1) == tx_hash(b));
    assert(node_hash(lb, 1, 2) == tx_hash(a));
    assert(merkle_root(sab) == combine(tx_hash(a), tx_hash(b)));
    assert(merkle_root(sba) == combine(tx_hash(b), tx_hash(a)));
    lemma_combine_symmetric(tx_hash(a), tx_hash(b));
}

} // verus!
