//! In-memory stores handed to the assembly functions: the pool of pending
//! transactions and the chain of accepted blocks, owned by the caller.

use crate::primitives::Block;
use crate::primitives::Transaction;
use vstd::prelude::*;

verus! {

/// The pool of transactions awaiting inclusion in a block.
pub struct Mempool {
    txs: Vec<Transaction>,
}

impl View for Mempool {
    type V = Seq<Transaction>;

    closed spec fn view(&self) -> Seq<Transaction> {
        self.txs@
    }
}

impl Mempool {
    /// An empty pool.
    pub fn new() -> (r: Self)
        ensures
            r@ == Seq::<Transaction>::empty(),
    {
        let txs: Vec<Transaction> = Vec::new();
        proof {
            assert(txs@ =~= Seq::<Transaction>::empty());
        }
        Mempool { txs }
    }

    /// Append a pending transaction.
    pub fn add_transaction(&mut self, tx: Transaction)
        ensures
            final(self)@ == old(self)@.push(tx),
    {
        self.txs.push(tx);
    }

    /// The pending transactions, in arrival order.
    pub fn get_transactions(&self) -> (r: &Vec<Transaction>)
        ensures
            r@ == self@,
    {
        &self.txs
    }
}

/// The ordered collection of accepted blocks.
pub struct Blockchain {
    blocks: Vec<Block>,
}

impl View for Blockchain {
    type V = Seq<Block>;

    closed spec fn view(&self) -> Seq<Block> {
        self.blocks@
    }
}

impl Blockchain {
    /// An empty chain.
    pub fn new() -> (r: Self)
        ensures
            r@ == Seq::<Block>::empty(),
    {
        let blocks: Vec<Block> = Vec::new();
        proof {
            assert(blocks@ =~= Seq::<Block>::empty());
        }
        Blockchain { blocks }
    }

    /// Append an accepted block.
    pub fn add_block(&mut self, bl: Block)
        ensures
            final(self)@ == old(self)@.push(bl),
    {
        self.blocks.push(bl);
    }

    /// The accepted blocks, oldest first.
    pub fn get_blocks(&self) -> (r: &Vec<Block>)
        ensures
            r@ == self@,
    {
        &self.blocks
    }
}

} // verus!
