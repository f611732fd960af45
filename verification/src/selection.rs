//! Selection of the transactions that go into a new block: the mempool is
//! filtered down to those whose lock time has passed, sorted by fee, highest
//! first and ties keeping their arrival order, and capped at 100.

use crate::primitives::Transaction;
use vstd::multiset::Multiset;
use vstd::prelude::*;
use vstd::seq_lib::lemma_multiset_commutative;

verus! {

broadcast use vstd::seq_lib::group_to_multiset_ensures;

/// A transaction may enter a block whose timestamp is `deadline` only once
/// its lock time has passed.
pub open spec fn is_eligible(t: Transaction, deadline: u64) -> bool {
    t.lock_time <= deadline
}

/// Insert `t` into a fee-sorted sequence, after every transaction whose fee
/// is at least `t`'s: a later arrival never moves ahead of an equal fee.
pub open spec fn insert_desc(s: Seq<Transaction>, t: Transaction) -> Seq<Transaction>
    decreases s.len(),
{
    if s.len() == 0 {
        seq![t]
    } else if s[0].transaction_fee >= t.transaction_fee {
        seq![s[0]] + insert_desc(s.drop_first(), t)
    } else {
        seq![t] + s
    }
}

/// Stable sort by transaction fee, highest first: the sequence's elements in
/// order of arrival, each inserted behind the fees it does not beat.
pub open spec fn sort_desc(s: Seq<Transaction>) -> Seq<Transaction>
    decreases s.len(),
{
    if s.len() == 0 {
        s
    } else {
        insert_desc(sort_desc(s.drop_last()), s.last())
    }
}

/// Fee is non-increasing along the sequence.
pub open spec fn sorted_desc(s: Seq<Transaction>) -> bool {
    forall|a: int, b: int|
        0 <= a <= b < s.len() ==> s[a].transaction_fee >= s[b].transaction_fee
}

/// The transactions a new block with timestamp `deadline` takes from
/// `mempool`: the eligible ones, fee-sorted, the first 100 of them.
pub open spec fn selected_txs(mempool: Seq<Transaction>, deadline: u64) -> Seq<Transaction> {
    let sorted = sort_desc(mempool.filter(|t: Transaction| is_eligible(t, deadline)));
    if sorted.len() <= 100 {
        sorted
    } else {
        sorted.take(100)
    }
}

proof fn lemma_insert_desc_properties(s: Seq<Transaction>, t: Transaction)
    ensures
        insert_desc(s, t).len() == s.len() + 1,
        insert_desc(s, t).to_multiset() == s.to_multiset().insert(t),
        forall|x: int|
            0 <= x < insert_desc(s, t).len() ==> (#[trigger] insert_desc(s, t)[x] == t
                || s.contains(insert_desc(s, t)[x])),
        sorted_desc(s) ==> sorted_desc(insert_desc(s, t)),
    decreases s.len(),
{
    let out = insert_desc(s, t);
    if s.len() == 0 {
        assert(out =~= Seq::empty().push(t));
        assert(s.to_multiset() =~= Seq::<Transaction>::empty().to_multiset());
    } else if s[0].transaction_fee >= t.transaction_fee {
        lemma_insert_desc_properties(s.drop_first(), t);
        let drop = s.drop_first();
        let rest = insert_desc(drop, t);
        lemma_multiset_commutative(seq![s[0]], rest);
        lemma_multiset_commutative(seq![s[0]], drop);
        assert(s =~= seq![s[0]] + drop);
        assert(seq![s[0]].to_multiset() =~= Multiset::empty().insert(s[0]));
        assert(out.to_multiset() =~= s.to_multiset().insert(t));
        assert forall|x: int| 0 <= x < out.len() implies (#[trigger] out[x] == t || s.contains(
            out[x],
        )) by {
            if x > 0 {
                assert(out[x] == rest[x - 1]);
                if rest[x - 1] != t {
                    let i = choose|i: int| 0 <= i < drop.len() && drop[i] == rest[x - 1];
                    assert(s[i + 1] == out[x]);
                }
            } else {
                assert(s[0] == out[0]);
            }
        }
        if sorted_desc(s) {
            assert(sorted_desc(drop)) by {
                assert forall|a: int, b: int|
                    0 <= a <= b < drop.len() implies drop[a].transaction_fee
                    >= drop[b].transaction_fee by {
                    assert(drop[a] == s[a + 1]);
                    assert(drop[b] == s[b + 1]);
                }
            }
            assert forall|a: int, b: int|
                0 <= a <= b < out.len() implies out[a].transaction_fee
                >= out[b].transaction_fee by {
                if a == 0 && b > 0 {
                    if out[b] != t {
                        assert(s.contains(out[b]));
                        let i = choose|i: int| 0 <= i < s.len() && s[i] == out[b];
                        assert(s[0].transaction_fee >= s[i].transaction_fee);
                    }
                } else if a > 0 {
                    assert(out[a] == rest[a - 1]);
                    assert(out[b] == rest[b - 1]);
                }
            }
        }
    } else {
        assert(out =~= seq![t] + s);
        lemma_multiset_commutative(seq![t], s);
        assert(seq![t].to_multiset() =~= Multiset::empty().insert(t));
        assert(out.to_multiset() =~= s.to_multiset().insert(t));
        assert forall|x: int| 0 <= x < out.len() implies (#[trigger] out[x] == t || s.contains(
            out[x],
        )) by {
            if x > 0 {
                assert(out[x] == s[x - 1]);
            }
        }
    }
}

/// What the fee sort guarantees: the result is a permutation of its input,
/// ordered by fee, highest first.
pub proof fn lemma_sort_desc_properties(s: Seq<Transaction>)
    ensures
        sort_desc(s).len() == s.len(),
        sort_desc(s).to_multiset() == s.to_multiset(),
        sorted_desc(sort_desc(s)),
    decreases s.len(),
{
    if s.len() > 0 {
        lemma_sort_desc_properties(s.drop_last());
        lemma_insert_desc_properties(sort_desc(s.drop_last()), s.last());
        assert(s.to_multiset() =~= s.drop_last().to_multiset().insert(s.last())) by {
            assert(s =~= s.drop_last().push(s.last()));
        }
    }
}

/// Fee priority: every transaction the cap keeps has at least the fee of any
/// transaction the cap drops.
pub proof fn lemma_fee_priority(mempool: Seq<Transaction>, deadline: u64)
    ensures
        ({
            let eligible = mempool.filter(|t: Transaction| is_eligible(t, deadline));
            let sorted = sort_desc(eligible);
            &&& sorted.to_multiset() == eligible.to_multiset()
            &&& sorted.len() == eligible.len()
            &&& sorted_desc(sorted)
            &&& selected_txs(mempool, deadline) == sorted.take(
                if sorted.len() <= 100 {
                    sorted.len() as int
                } else {
                    100
                },
            )
        }),
{
    let eligible = mempool.filter(|t: Transaction| is_eligible(t, deadline));
    lemma_sort_desc_properties(eligible);
    let sorted = sort_desc(eligible);
    if sorted.len() <= 100 {
        assert(sorted.take(sorted.len() as int) =~= sorted);
    }
}

proof fn lemma_filter_fee_none(s: Seq<Transaction>, f: u64)
    requires
        forall|i: int| 0 <= i < s.len() ==> s[i].transaction_fee != f,
    ensures
        s.filter(|x: Transaction| x.transaction_fee == f) == Seq::<Transaction>::empty(),
    decreases s.len(),
{
    reveal(Seq::filter);
    if s.len() > 0 {
        assert(forall|i: int|
            0 <= i < s.drop_last().len() ==> s.drop_last()[i].transaction_fee != f);
        lemma_filter_fee_none(s.drop_last(), f);
    }
}

proof fn lemma_insert_desc_stable(s: Seq<Transaction>, t: Transaction, f: u64)
    requires
        sorted_desc(s),
    ensures
        t.transaction_fee == f ==> insert_desc(s, t).filter(
            |x: Transaction| x.transaction_fee == f,
        ) == s.filter(|x: Transaction| x.transaction_fee == f).push(t),
        t.transaction_fee != f ==> insert_desc(s, t).filter(
            |x: Transaction| x.transaction_fee == f,
        ) == s.filter(|x: Transaction| x.transaction_fee == f),
    decreases s.len(),
{
    let pred = |x: Transaction| x.transaction_fee == f;
    let out = insert_desc(s, t);
    reveal_with_fuel(Seq::filter, 3);
    if s.len() == 0 {
        assert(out =~= Seq::<Transaction>::empty().push(t));
        assert(out.drop_last() =~= Seq::<Transaction>::empty());
        if t.transaction_fee == f {
            assert(out.filter(pred) =~= s.filter(pred).push(t));
        } else {
            assert(out.filter(pred) =~= s.filter(pred));
        }
    } else if s[0].transaction_fee >= t.transaction_fee {
        let drop = s.drop_first();
        assert(sorted_desc(drop)) by {
            assert forall|a: int, b: int|
                0 <= a <= b < drop.len() implies drop[a].transaction_fee
                >= drop[b].transaction_fee by {
                assert(drop[a] == s[a + 1]);
                assert(drop[b] == s[b + 1]);
            }
        }
        lemma_insert_desc_stable(drop, t, f);
        let rest = insert_desc(drop, t);
        assert(out =~= seq![s[0]] + rest);
        assert(s =~= seq![s[0]] + drop);
        Seq::filter_distributes_over_add(seq![s[0]], rest, pred);
        Seq::filter_distributes_over_add(seq![s[0]], drop, pred);
        if t.transaction_fee == f {
            Seq::push_distributes_over_add(seq![s[0]].filter(pred), drop.filter(pred), t);
        }
    } else {
        assert(out =~= seq![t] + s);
        Seq::filter_distributes_over_add(seq![t], s, pred);
        assert(seq![t].drop_last() =~= Seq::<Transaction>::empty());
        if t.transaction_fee == f {
            // everything in s has a fee below t's, so nothing in s matches f
            assert(forall|i: int| 0 <= i < s.len() ==> s[i].transaction_fee != f);
            lemma_filter_fee_none(s, f);
            assert(out.filter(pred) =~= s.filter(pred).push(t));
        } else {
            assert(seq![t].filter(pred) =~= Seq::<Transaction>::empty());
            assert(out.filter(pred) =~= s.filter(pred));
        }
    }
}

/// Stability of the fee sort: among transactions sharing one fee, the sorted
/// sequence keeps exactly the arrival order, since filtering both sides down
/// to that fee yields the same subsequence.
pub proof fn lemma_sort_desc_stable(s: Seq<Transaction>, f: u64)
    ensures
        sort_desc(s).filter(|x: Transaction| x.transaction_fee == f) == s.filter(
            |x: Transaction| x.transaction_fee == f,
        ),
    decreases s.len(),
{
    reveal(Seq::filter);
    if s.len() > 0 {
        lemma_sort_desc_stable(s.drop_last(), f);
        lemma_sort_desc_properties(s.drop_last());
        lemma_insert_desc_stable(sort_desc(s.drop_last()), s.last(), f);
    }
}

proof fn lemma_insert_desc_at(s: Seq<Transaction>, t: Transaction, j: int)
    requires
        0 <= j <= s.len(),
        forall|q: int| 0 <= q < j ==> s[q].transaction_fee >= t.transaction_fee,
        j < s.len() ==> s[j].transaction_fee < t.transaction_fee,
    ensures
        insert_desc(s, t) == s.take(j) + seq![t] + s.skip(j),
    decreases j,
{
    if j == 0 {
        assert(insert_desc(s, t) =~= s.take(0) + seq![t] + s.skip(0));
    } else {
        lemma_insert_desc_at(s.drop_first(), t, j - 1);
        assert(insert_desc(s, t) =~= s.take(j) + seq![t] + s.skip(j));
    }
}

/// The eligible transactions of `mempool`, fee-sorted, highest first, ties in
/// arrival order, capped at 100.
pub fn select_transactions(mempool: &Vec<Transaction>, deadline: u64) -> (r: Vec<Transaction>)
    ensures
        r@ == selected_txs(mempool@, deadline),
        r@.len() <= 100,
{
    let ghost pred = |t: Transaction| is_eligible(t, deadline);
    let mut eligible: Vec<Transaction> = Vec::new();
    let mut i: usize = 0;
    proof {
        reveal(Seq::filter);
        assert(mempool@.take(0).filter(pred) =~= Seq::empty());
    }
    while i < mempool.len()
        invariant
            i <= mempool@.len(),
            eligible@ == mempool@.take(i as int).filter(pred),
            pred == (|t: Transaction| is_eligible(t, deadline)),
        decreases mempool@.len() - i,
    {
        proof {
            reveal(Seq::filter);
            assert(mempool@.take(i + 1).drop_last() =~= mempool@.take(i as int));
            assert(mempool@.take(i + 1).last() == mempool@[i as int]);
        }
        if mempool[i].lock_time <= deadline {
            eligible.push(mempool[i].clone());
        }
        i = i + 1;
    }
    proof {
        assert(mempool@.take(mempool@.len() as int) =~= mempool@);
    }

    let mut sorted: Vec<Transaction> = Vec::new();
    let mut k: usize = 0;
    while k < eligible.len()
        invariant
            k <= eligible@.len(),
            sorted@ == sort_desc(eligible@.take(k as int)),
            sorted@.len() == k,
        decreases eligible@.len() - k,
    {
        let t = eligible[k].clone();
        let ghost prev = sorted@;
        let mut j: usize = 0;
        while j < sorted.len() && sorted[j].transaction_fee >= t.transaction_fee
            invariant
                j <= sorted@.len(),
                sorted@ == prev,
                forall|q: int| 0 <= q < j ==> sorted@[q].transaction_fee >= t.transaction_fee,
            decreases sorted@.len() - j,
        {
            j = j + 1;
        }
        sorted.insert(j, t);
        proof {
            lemma_insert_desc_at(prev, t, j as int);
            assert(sorted@ =~= prev.take(j as int) + seq![t] + prev.skip(j as int));
            assert(eligible@.take(k + 1).drop_last() =~= eligible@.take(k as int));
            assert(eligible@.take(k + 1).last() == eligible@[k as int]);
            assert(sorted@ == sort_desc(eligible@.take(k + 1)));
        }
        k = k + 1;
    }
    proof {
        assert(eligible@.take(eligible@.len() as int) =~= eligible@);
    }
    sorted.truncate(100);
    proof {
        let full = sort_desc(eligible@);
        if full.len() > 100 {
            assert(sorted@ =~= full.take(100));
        }
    }
    sorted
}

} // verus!
