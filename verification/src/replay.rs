//! Replaying a ledger: transaction by transaction, what is spent leaves the
//! index first, and what is paid to a known address enters it then.

use crate::index::{UnspentEntry, UtxoIndex};
use crate::transaction::{Hashed, Tx, TxView};
use crate::unspents::{
    insert_unspents, new_unspents, remove_unspents, resolved_count, spent_keys,
};
use vstd::prelude::*;

verus! {

/// One transaction of a ledger: its hash, its content and the height of the
/// block that holds it.
pub struct Step {
    pub txid: Seq<u8>,
    pub tx: TxView,
    pub block_height: u64,
}

impl Step {
    /// Whether the transaction spends the output with key `key`.
    pub open spec fn spends(self, key: Seq<u8>) -> bool {
        spent_keys(self.tx.inputs).contains(key)
    }

    /// Whether the transaction registers an output under `key`.
    pub open spec fn registers(self, key: Seq<u8>) -> bool {
        new_unspents(self.txid, self.tx.outputs, self.block_height).contains_key(key)
    }

    /// The entry that the transaction registers under `key`.
    pub open spec fn entry(self, key: Seq<u8>) -> UnspentEntry
        recommends
            self.registers(key),
    {
        new_unspents(self.txid, self.tx.outputs, self.block_height)[key]
    }
}

/// The index after one transaction.
pub open spec fn apply_transaction(index: Map<Seq<u8>, UnspentEntry>, step: Step) -> Map<
    Seq<u8>,
    UnspentEntry,
> {
    index.remove_keys(spent_keys(step.tx.inputs)).union_prefer_right(
        new_unspents(step.txid, step.tx.outputs, step.block_height),
    )
}

/// The index after the transactions of `ledger`, taken in order.
pub open spec fn replay(index: Map<Seq<u8>, UnspentEntry>, ledger: Seq<Step>) -> Map<
    Seq<u8>,
    UnspentEntry,
>
    decreases ledger.len(),
{
    if ledger.len() == 0 {
        index
    } else {
        apply_transaction(replay(index, ledger.drop_last()), ledger.last())
    }
}

/// Whether the transaction at place `t` of `ledger` registers `key` and no
/// transaction after it spends `key`.
pub open spec fn unspent_since(ledger: Seq<Step>, t: int, key: Seq<u8>) -> bool {
    &&& 0 <= t < ledger.len()
    &&& ledger[t].registers(key)
    &&& forall|s: int| t < s < ledger.len() ==> !(#[trigger] ledger[s]).spends(key)
}

/// Whether the transaction at place `t` of `ledger` is the last to register
/// `key`, and no transaction after it spends `key`.
pub open spec fn last_unspent_since(ledger: Seq<Step>, t: int, key: Seq<u8>) -> bool {
    &&& unspent_since(ledger, t, key)
    &&& forall|s: int| t < s < ledger.len() ==> !(#[trigger] ledger[s]).registers(key)
}

/// Whether no transaction of `ledger` spends `key`.
pub open spec fn never_spent(ledger: Seq<Step>, key: Seq<u8>) -> bool {
    forall|s: int| 0 <= s < ledger.len() ==> !(#[trigger] ledger[s]).spends(key)
}

/// After a replay the index holds exactly the outputs that a transaction has
/// registered and no later transaction has spent, beside what it held before
/// and no transaction has spent: it has an entry under a key if and only if
/// some transaction registers the key and none after it spends the key, or
/// the key was there from the start and no transaction spends it.
pub proof fn lemma_replay_holds_the_unspent(
    index: Map<Seq<u8>, UnspentEntry>,
    ledger: Seq<Step>,
    key: Seq<u8>,
)
    ensures
        replay(index, ledger).contains_key(key) <==> (exists|t: int| unspent_since(ledger, t, key))
            || (index.contains_key(key) && never_spent(ledger, key)),
    decreases ledger.len(),
{
    if ledger.len() > 0 {
        let before = ledger.drop_last();
        let last = ledger.len() - 1;
        lemma_replay_holds_the_unspent(index, before, key);
        assert(forall|s: int| 0 <= s < last ==> before[s] == ledger[s]);
        if replay(index, ledger).contains_key(key) {
            if ledger[last].registers(key) {
                assert(unspent_since(ledger, last, key));
            } else if exists|t: int| unspent_since(before, t, key) {
                let t = choose|t: int| unspent_since(before, t, key);
                assert(unspent_since(ledger, t, key));
            } else {
                assert(never_spent(ledger, key));
            }
        }
        if exists|t: int| unspent_since(ledger, t, key) {
            let t = choose|t: int| unspent_since(ledger, t, key);
            if t < last {
                assert(unspent_since(before, t, key));
            }
        }
    }
}

/// The entry under a key is the one of the last transaction that registered
/// the key.
pub proof fn lemma_replay_holds_the_last_entry(
    index: Map<Seq<u8>, UnspentEntry>,
    ledger: Seq<Step>,
    t: int,
    key: Seq<u8>,
)
    requires
        last_unspent_since(ledger, t, key),
    ensures
        replay(index, ledger).contains_key(key),
        replay(index, ledger)[key] == ledger[t].entry(key),
    decreases ledger.len(),
{
    if t < ledger.len() - 1 {
        lemma_replay_holds_the_last_entry(index, ledger.drop_last(), t, key);
    }
}

/// What replay makes of a transaction.
pub open spec fn step_of(tx: Hashed<Tx>, block_height: u64) -> Step {
    Step { txid: tx.hash@, tx: tx.value@, block_height }
}

/// Brings `unspents` up to date with `tx`, a transaction of the block at
/// `block_height`: first the outputs that `tx` spends leave the index, then
/// the outputs of `tx` that pay to a known address enter it. Returns the
/// number of inputs of `tx` and the number of outputs that entered.
pub fn update_unspents(tx: &Hashed<Tx>, block_height: u64, unspents: &mut UtxoIndex) -> (counts: (
    u64,
    u64,
))
    ensures
        final(unspents)@ == apply_transaction(old(unspents)@, step_of(*tx, block_height)),
        counts.0 == tx.value@.inputs.len(),
        counts.1 == resolved_count(tx.value@.outputs),
{
    let inputs = remove_unspents(tx, unspents);
    let outputs = insert_unspents(tx, block_height, unspents);
    (inputs, outputs)
}

} // verus!
