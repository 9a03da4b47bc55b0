//! What holds of spending and registering, whatever the transaction and
//! whatever the index held before.

use crate::index::UnspentEntry;
use crate::outpoint::{lemma_outpoint_key_injective, outpoint_key, TxOutpoint};
use crate::transaction::{OutputView, MAX_OUTPUTS};
use crate::unspents::{
    lemma_new_unspents_step, lemma_registers_unique, lemma_resolved_count_step, new_unspents,
    registers, resolved_count, spent_keys, unspent_entry,
};
use vstd::prelude::*;
use vstd::seq_lib::seq_to_set_is_finite;
use vstd::set_lib::{lemma_len_subset, lemma_set_disjoint_lens};

verus! {

/// Key agreement: the key under which output `i` of the transaction with hash
/// `txid` is registered is the key that an input spending the outpoint
/// `(txid, i)` removes.
pub proof fn lemma_key_agreement(
    txid: [u8; 32],
    outputs: Seq<OutputView>,
    i: int,
    spending: TxOutpoint,
    key: Seq<u8>,
)
    requires
        registers(txid@, outputs, i, key),
        spending.txid == txid,
        spending.index == i,
    ensures
        spending.key() == key,
{
}

/// A key is spent by `inputs` exactly if one of them names the outpoint that
/// the key belongs to.
pub proof fn lemma_spent_keys_exact(inputs: Seq<TxOutpoint>, txid: [u8; 32], index: u32)
    ensures
        spent_keys(inputs).contains(outpoint_key(txid@, index)) <==> exists|j: int|
            0 <= j < inputs.len() && #[trigger] inputs[j].txid == txid && inputs[j].index == index,
{
    let keys = inputs.map_values(|outpoint: TxOutpoint| outpoint.key());
    let key = outpoint_key(txid@, index);
    if keys.contains(key) {
        let j = keys.index_of(key);
        lemma_outpoint_key_injective(inputs[j].txid@, inputs[j].index, txid@, index);
        assert(inputs[j].txid == txid);
    }
    if exists|j: int|
        0 <= j < inputs.len() && #[trigger] inputs[j].txid == txid && inputs[j].index == index {
        let j = choose|j: int|
            0 <= j < inputs.len() && #[trigger] inputs[j].txid == txid && inputs[j].index == index;
        assert(keys[j] == key);
    }
}

/// An output that one transaction registers and a later one spends is gone
/// from the index afterwards.
pub proof fn lemma_spend_removes_registered(
    index: Map<Seq<u8>, UnspentEntry>,
    txid: [u8; 32],
    outputs: Seq<OutputView>,
    block_height: u64,
    i: int,
    inputs: Seq<TxOutpoint>,
    j: int,
)
    requires
        0 <= i < outputs.len() <= MAX_OUTPUTS,
        0 <= j < inputs.len(),
        inputs[j].txid == txid,
        inputs[j].index == i,
    ensures
        !index.union_prefer_right(new_unspents(txid@, outputs, block_height)).remove_keys(
            spent_keys(inputs),
        ).contains_key(outpoint_key(txid@, i as u32)),
{
    lemma_spent_keys_exact(inputs, txid, i as u32);
}

/// After registering, every output that pays to a known address stands in the
/// index under its own key, with the height of the block, its value and its
/// address.
pub proof fn lemma_resolved_output_registered(
    index: Map<Seq<u8>, UnspentEntry>,
    txid: Seq<u8>,
    outputs: Seq<OutputView>,
    block_height: u64,
    i: int,
)
    requires
        0 <= i < outputs.len() <= MAX_OUTPUTS,
        outputs[i].resolved(),
    ensures
        ({
            let after = index.union_prefer_right(new_unspents(txid, outputs, block_height));
            let key = outpoint_key(txid, i as u32);
            &&& after.contains_key(key)
            &&& after[key] == unspent_entry(outputs[i], block_height)
        }),
{
    let key = outpoint_key(txid, i as u32);
    assert(registers(txid, outputs, i, key));
    let chosen = choose|k: int| registers(txid, outputs, k, key);
    lemma_registers_unique(txid, outputs, i, chosen, key);
}

/// Registering brings no entry for an output without a known address: under
/// the key of such an output the index holds what it held before, so nothing
/// if nothing stood there.
pub proof fn lemma_unresolved_output_not_registered(
    index: Map<Seq<u8>, UnspentEntry>,
    txid: Seq<u8>,
    outputs: Seq<OutputView>,
    block_height: u64,
    i: int,
)
    requires
        0 <= i < outputs.len() <= MAX_OUTPUTS,
        !outputs[i].resolved(),
    ensures
        ({
            let brought = new_unspents(txid, outputs, block_height);
            let after = index.union_prefer_right(brought);
            let key = outpoint_key(txid, i as u32);
            &&& !brought.contains_key(key)
            &&& after.contains_key(key) == index.contains_key(key)
            &&& !index.contains_key(key) ==> !after.contains_key(key)
        }),
{
    let key = outpoint_key(txid, i as u32);
    if exists|k: int| registers(txid, outputs, k, key) {
        let k = choose|k: int| registers(txid, outputs, k, key);
        lemma_outpoint_key_injective(txid, k as u32, txid, i as u32);
    }
}

/// Every entry that registering brings belongs to an output of the
/// transaction that pays to a known address.
pub proof fn lemma_registered_entries_resolved(
    txid: Seq<u8>,
    outputs: Seq<OutputView>,
    block_height: u64,
    key: Seq<u8>,
)
    requires
        new_unspents(txid, outputs, block_height).contains_key(key),
    ensures
        exists|i: int|
            #[trigger] registers(txid, outputs, i, key) && new_unspents(
                txid,
                outputs,
                block_height,
            )[key] == unspent_entry(outputs[i], block_height),
{
    let i = choose|i: int| registers(txid, outputs, i, key);
    assert(registers(txid, outputs, i, key));
}

/// The entries that registering brings are as many as the outputs that pay to
/// a known address.
pub proof fn lemma_new_unspents_len(txid: Seq<u8>, outputs: Seq<OutputView>, block_height: u64)
    requires
        outputs.len() <= MAX_OUTPUTS,
    ensures
        new_unspents(txid, outputs, block_height).dom().finite(),
        new_unspents(txid, outputs, block_height).dom().len() == resolved_count(outputs),
{
    lemma_new_unspents_prefix_len(txid, outputs, block_height, outputs.len() as int);
    assert(outputs.take(outputs.len() as int) =~= outputs);
}

proof fn lemma_new_unspents_prefix_len(
    txid: Seq<u8>,
    outputs: Seq<OutputView>,
    block_height: u64,
    n: int,
)
    requires
        0 <= n <= outputs.len() <= MAX_OUTPUTS,
    ensures
        new_unspents(txid, outputs.take(n), block_height).dom().finite(),
        new_unspents(txid, outputs.take(n), block_height).dom().len() == resolved_count(
            outputs.take(n),
        ),
    decreases n,
{
    if n == 0 {
        assert(new_unspents(txid, outputs.take(0), block_height).dom() =~= Set::<
            Seq<u8>,
        >::empty());
    } else {
        let i = n - 1;
        lemma_new_unspents_prefix_len(txid, outputs, block_height, i);
        lemma_new_unspents_step(txid, outputs, i, block_height);
        lemma_resolved_count_step(outputs, i);
        if outputs[i].resolved() {
            let key = outpoint_key(txid, i as u32);
            if exists|k: int| registers(txid, outputs.take(i), k, key) {
                let k = choose|k: int| registers(txid, outputs.take(i), k, key);
                lemma_outpoint_key_injective(txid, k as u32, txid, i as u32);
            }
        }
    }
}

/// Registering into an index that holds no entry under the keys of the
/// outputs that pay to a known address makes the index grow by exactly the
/// number of those outputs.
pub proof fn lemma_insert_grows_by_resolved_count(
    index: Map<Seq<u8>, UnspentEntry>,
    txid: Seq<u8>,
    outputs: Seq<OutputView>,
    block_height: u64,
)
    requires
        index.dom().finite(),
        outputs.len() <= MAX_OUTPUTS,
        forall|i: int|
            0 <= i < outputs.len() && outputs[i].resolved() ==> !index.contains_key(
                #[trigger] outpoint_key(txid, i as u32),
            ),
    ensures
        ({
            let after = index.union_prefer_right(new_unspents(txid, outputs, block_height));
            &&& after.dom().finite()
            &&& after.dom().len() == index.dom().len() + resolved_count(outputs)
        }),
{
    let brought = new_unspents(txid, outputs, block_height);
    let after = index.union_prefer_right(brought);
    lemma_new_unspents_len(txid, outputs, block_height);
    assert(after.dom() =~= index.dom() + brought.dom());
    assert(index.dom().disjoint(brought.dom())) by {
        assert forall|key: Seq<u8>| brought.dom().contains(key) implies !index.dom().contains(
            key,
        ) by {
            let i = choose|i: int| registers(txid, outputs, i, key);
            assert(key == outpoint_key(txid, i as u32));
        }
    }
    lemma_set_disjoint_lens(index.dom(), brought.dom());
}

/// An output without a known address does not count: the number of registered
/// outputs is the same with it as without it.
pub proof fn lemma_unresolved_output_not_counted(outputs: Seq<OutputView>, i: int)
    requires
        0 <= i < outputs.len(),
        !outputs[i].resolved(),
    ensures
        resolved_count(outputs.remove(i)) == resolved_count(outputs),
{
    let resolved = |output: OutputView| output.resolved();
    let head = outputs.take(i);
    let tail = outputs.skip(i + 1);
    assert(outputs =~= head + seq![outputs[i]] + tail);
    Seq::filter_distributes_over_add(head + seq![outputs[i]], tail, resolved);
    Seq::filter_distributes_over_add(head, seq![outputs[i]], resolved);
    Seq::filter_distributes_over_add(head, tail, resolved);
    assert(seq![outputs[i]].filter(resolved) =~= Seq::<OutputView>::empty()) by {
        reveal_with_fuel(Seq::filter, 2);
    }
}

/// What an output without a known address holds has no bearing on the other
/// outputs: with another such output in its place, the same entries are
/// registered and the same number is counted.
pub proof fn lemma_unresolved_output_without_effect(
    txid: Seq<u8>,
    outputs: Seq<OutputView>,
    block_height: u64,
    i: int,
    other: OutputView,
)
    requires
        0 <= i < outputs.len() <= MAX_OUTPUTS,
        !outputs[i].resolved(),
        !other.resolved(),
    ensures
        new_unspents(txid, outputs.update(i, other), block_height) == new_unspents(
            txid,
            outputs,
            block_height,
        ),
        resolved_count(outputs.update(i, other)) == resolved_count(outputs),
{
    let changed = outputs.update(i, other);
    assert(forall|k: int, key: Seq<u8>|
        registers(txid, changed, k, key) == registers(txid, outputs, k, key));
    assert forall|key: Seq<u8>|
        new_unspents(txid, changed, block_height).contains_key(key) implies new_unspents(
            txid,
            changed,
            block_height,
        )[key] == new_unspents(txid, outputs, block_height)[key] by {
        let a = choose|k: int| registers(txid, changed, k, key);
        let b = choose|k: int| registers(txid, outputs, k, key);
        lemma_registers_unique(txid, outputs, a, b, key);
    }
    lemma_unresolved_output_not_counted(outputs, i);
    lemma_unresolved_output_not_counted(changed, i);
    assert(changed.remove(i) =~= outputs.remove(i));
}

/// Spending takes away no more entries than the transaction has inputs, and
/// fewer where inputs name outputs that the index does not hold or name the
/// same output twice: it takes away as many as there are keys that an input
/// names and the index holds. What stays is as it was.
pub proof fn lemma_remove_at_most_inputs(index: Map<Seq<u8>, UnspentEntry>, inputs: Seq<TxOutpoint>)
    requires
        index.dom().finite(),
    ensures
        ({
            let after = index.remove_keys(spent_keys(inputs));
            &&& after.dom().finite()
            &&& after.submap_of(index)
            &&& after.dom().len() <= index.dom().len()
            &&& index.dom().len() - after.dom().len() <= inputs.len()
            &&& index.dom().len() - after.dom().len() == index.dom().intersect(
                spent_keys(inputs),
            ).len()
        }),
{
    let keys = inputs.map_values(|outpoint: TxOutpoint| outpoint.key());
    let spent = spent_keys(inputs);
    let after = index.remove_keys(spent);
    let taken = index.dom().intersect(spent);
    seq_to_set_is_finite(keys);
    keys.lemma_cardinality_of_set();
    lemma_len_subset(after.dom(), index.dom());
    lemma_len_subset(taken, spent);
    assert(index.dom() =~= after.dom() + taken);
    assert(after.dom().disjoint(taken));
    lemma_set_disjoint_lens(after.dom(), taken);
}

/// Spending the same inputs a second time changes nothing.
pub proof fn lemma_remove_idempotent(index: Map<Seq<u8>, UnspentEntry>, inputs: Seq<TxOutpoint>)
    ensures
        index.remove_keys(spent_keys(inputs)).remove_keys(spent_keys(inputs)) == index.remove_keys(
            spent_keys(inputs),
        ),
{
    assert(index.remove_keys(spent_keys(inputs)).remove_keys(spent_keys(inputs))
        =~= index.remove_keys(spent_keys(inputs)));
}

} // verus!
