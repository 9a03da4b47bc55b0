//! Keeping the index in step with the ledger: what a transaction spends leaves
//! the index, and what it pays to a known address enters it.

use crate::hex::{arr_to_hex_swapped, hex_swapped};
use crate::index::{UnspentEntry, UnspentValue, UtxoIndex};
use crate::outpoint::{lemma_outpoint_key_injective, outpoint_key, TxOutpoint};
use crate::transaction::{outputs_view, Hashed, OutputView, Tx, MAX_OUTPUTS};
use vstd::prelude::*;
use vstd::string::StringExecFns;

verus! {

/// The keys of the outputs that `inputs` spend.
pub open spec fn spent_keys(inputs: Seq<TxOutpoint>) -> Set<Seq<u8>> {
    inputs.map_values(|outpoint: TxOutpoint| outpoint.key()).to_set()
}

/// The entry that is kept for `output` of a transaction in a block at
/// `block_height`.
pub open spec fn unspent_entry(output: OutputView, block_height: u64) -> UnspentEntry
    recommends
        output.resolved(),
{
    UnspentEntry { block_height, value: output.value, address: output.address->0 }
}

/// Whether `key` is the key of the output at position `i` of the transaction
/// with hash `txid`, and that output pays to a known address.
pub open spec fn registers(txid: Seq<u8>, outputs: Seq<OutputView>, i: int, key: Seq<u8>) -> bool {
    &&& 0 <= i < outputs.len()
    &&& outputs[i].resolved()
    &&& key == outpoint_key(txid, i as u32)
}

/// The entries that the transaction with hash `txid` and outputs `outputs`
/// brings into the index: one for each output that pays to a known address,
/// under the key of that output.
pub open spec fn new_unspents(txid: Seq<u8>, outputs: Seq<OutputView>, block_height: u64) -> Map<
    Seq<u8>,
    UnspentEntry,
> {
    Map::new(
        |key: Seq<u8>| exists|i: int| registers(txid, outputs, i, key),
        |key: Seq<u8>|
            unspent_entry(outputs[choose|i: int| registers(txid, outputs, i, key)], block_height),
    )
}

/// The number of outputs that pay to a known address.
pub open spec fn resolved_count(outputs: Seq<OutputView>) -> nat {
    outputs.filter(|output: OutputView| output.resolved()).len()
}

/// The diagnostic for an output that names no address: the hash of its
/// transaction as a ledger shows it, and the pattern of its script.
pub open spec fn ignored_message(txid: Seq<u8>, pattern: Seq<char>) -> Seq<char> {
    "Ignoring invalid utxo in: "@ + hex_swapped(txid) + " ("@ + pattern + ")"@
}

/// The diagnostics for the outputs that name no address, in the order of the
/// outputs.
pub open spec fn ignored_messages(txid: Seq<u8>, outputs: Seq<OutputView>) -> Seq<Seq<char>> {
    outputs.filter(|output: OutputView| !output.resolved()).map_values(
        |output: OutputView| ignored_message(txid, output.pattern),
    )
}

/// Only one position of a transaction has a given key.
pub proof fn lemma_registers_unique(
    txid: Seq<u8>,
    outputs: Seq<OutputView>,
    i: int,
    j: int,
    key: Seq<u8>,
)
    requires
        outputs.len() <= MAX_OUTPUTS,
        registers(txid, outputs, i, key),
        registers(txid, outputs, j, key),
    ensures
        i == j,
{
    lemma_outpoint_key_injective(txid, i as u32, txid, j as u32);
}

/// What one more input adds to the spent keys.
pub proof fn lemma_spent_keys_step(inputs: Seq<TxOutpoint>, i: int)
    requires
        0 <= i < inputs.len(),
    ensures
        spent_keys(inputs.take(i + 1)) == spent_keys(inputs.take(i)).insert(inputs[i].key()),
{
    let to_key = |outpoint: TxOutpoint| outpoint.key();
    let before = inputs.take(i).map_values(to_key);
    let after = inputs.take(i + 1).map_values(to_key);
    assert(after =~= before.push(inputs[i].key()));
    assert forall|key: Seq<u8>| after.to_set().contains(key) == before.to_set().insert(
        inputs[i].key(),
    ).contains(key) by {
        if before.contains(key) {
            let j = before.index_of(key);
            assert(after[j] == key);
        }
        if key == inputs[i].key() {
            assert(after[i] == key);
        }
    }
}

/// What one more output adds to the entries of a transaction.
pub proof fn lemma_new_unspents_step(
    txid: Seq<u8>,
    outputs: Seq<OutputView>,
    i: int,
    block_height: u64,
)
    requires
        0 <= i < outputs.len() <= MAX_OUTPUTS,
    ensures
        new_unspents(txid, outputs.take(i + 1), block_height) == if outputs[i].resolved() {
            new_unspents(txid, outputs.take(i), block_height).insert(
                outpoint_key(txid, i as u32),
                unspent_entry(outputs[i], block_height),
            )
        } else {
            new_unspents(txid, outputs.take(i), block_height)
        },
{
    let before = outputs.take(i);
    let after = outputs.take(i + 1);
    let key_i = outpoint_key(txid, i as u32);
    let expected = if outputs[i].resolved() {
        new_unspents(txid, before, block_height).insert(
            key_i,
            unspent_entry(outputs[i], block_height),
        )
    } else {
        new_unspents(txid, before, block_height)
    };
    assert forall|key: Seq<u8>|
        new_unspents(txid, after, block_height).contains_key(key) == expected.contains_key(
            key,
        ) by {
        if exists|j: int| registers(txid, after, j, key) {
            let j = choose|j: int| registers(txid, after, j, key);
            if j < i {
                assert(registers(txid, before, j, key));
            }
        }
        if exists|j: int| registers(txid, before, j, key) {
            let j = choose|j: int| registers(txid, before, j, key);
            assert(registers(txid, after, j, key));
        }
        if outputs[i].resolved() && key == key_i {
            assert(registers(txid, after, i, key));
        }
    }
    assert forall|key: Seq<u8>| new_unspents(txid, after, block_height).contains_key(
        key,
    ) implies new_unspents(txid, after, block_height)[key] == expected[key] by {
        let j = choose|j: int| registers(txid, after, j, key);
        if j < i {
            assert(registers(txid, before, j, key));
            let k = choose|k: int| registers(txid, before, k, key);
            lemma_registers_unique(txid, after, j, k, key);
            if outputs[i].resolved() && key == key_i {
                lemma_registers_unique(txid, after, j, i, key);
            }
        }
    }
}

/// What one more output adds to the number of resolved outputs.
pub proof fn lemma_resolved_count_step(outputs: Seq<OutputView>, i: int)
    requires
        0 <= i < outputs.len(),
    ensures
        resolved_count(outputs.take(i + 1)) == resolved_count(outputs.take(i)) + if outputs[i].resolved() {
            1nat
        } else {
            0nat
        },
        resolved_count(outputs.take(i)) <= i,
{
    let resolved = |output: OutputView| output.resolved();
    assert(outputs.take(i + 1) =~= outputs.take(i).push(outputs[i]));
    outputs.take(i).lemma_filter_push(outputs[i], resolved);
    outputs.take(i).lemma_filter_len(resolved);
}

/// Takes out of `unspents` the entry of every output that an input of `tx`
/// spends. An input whose output is not in the index changes nothing.
/// Returns the number of inputs of `tx`.
pub fn remove_unspents(tx: &Hashed<Tx>, unspents: &mut UtxoIndex) -> (count: u64)
    ensures
        final(unspents)@ == old(unspents)@.remove_keys(spent_keys(tx.value@.inputs)),
        count == tx.value@.inputs.len(),
{
    let inputs = tx.value.inputs();
    let ghost spent = tx.value@.inputs;
    let mut i: usize = 0;
    while i < inputs.len()
        invariant
            i <= inputs@.len(),
            spent.len() == inputs@.len(),
            forall|j: int| 0 <= j < inputs@.len() ==> spent[j] == inputs@[j].outpoint,
            unspents@ == old(unspents)@.remove_keys(spent_keys(spent.take(i as int))),
        decreases inputs@.len() - i,
    {
        let key = inputs[i].outpoint.to_bytes();
        unspents.remove(key.as_slice());
        proof {
            lemma_spent_keys_step(spent, i as int);
        }
        i += 1;
    }
    assert(spent.take(i as int) =~= spent);
    inputs.len() as u64
}

/// Puts into `unspents` an entry for every output of `tx` that pays to a
/// known address, under the key of that output, with the height of the block
/// that holds `tx`. An entry that stood under such a key is replaced. Outputs
/// without an address are passed over. Returns the number of entries put in.
pub fn insert_unspents(tx: &Hashed<Tx>, block_height: u64, unspents: &mut UtxoIndex) -> (count: u64)
    ensures
        final(unspents)@ == old(unspents)@.union_prefer_right(
            new_unspents(tx.hash@, tx.value@.outputs, block_height),
        ),
        count == resolved_count(tx.value@.outputs),
{
    let outputs = tx.value.outputs();
    let ghost paid = tx.value@.outputs;
    let mut count: u64 = 0;
    let mut i: usize = 0;
    while i < outputs.len()
        invariant
            i <= outputs@.len() <= MAX_OUTPUTS,
            paid == outputs_view(outputs@),
            unspents@ == old(unspents)@.union_prefer_right(
                new_unspents(tx.hash@, paid.take(i as int), block_height),
            ),
            count == resolved_count(paid.take(i as int)),
            count <= i,
        decreases outputs@.len() - i,
    {
        proof {
            lemma_new_unspents_step(tx.hash@, paid, i as int, block_height);
            lemma_resolved_count_step(paid, i as int);
        }
        let output = &outputs[i];
        match &output.script.address {
            Some(address) => {
                let unspent = UnspentValue {
                    block_height,
                    address: address.clone(),
                    value: output.out.value,
                };
                let key = TxOutpoint::new(tx.hash, i as u32).to_bytes();
                unspents.insert(key, unspent);
                count += 1;
            },
            None => {},
        }
        i += 1;
    }
    assert(paid.take(i as int) =~= paid);
    count
}

/// The diagnostics for the outputs of `tx` that `insert_unspents` passes over,
/// one for each output that names no address, in the order of the outputs.
/// They are for the caller to log.
pub fn ignored_outputs(tx: &Hashed<Tx>) -> (messages: Vec<String>)
    ensures
        messages@.map_values(|message: String| message@) == ignored_messages(
            tx.hash@,
            tx.value@.outputs,
        ),
{
    let outputs = tx.value.outputs();
    let ghost paid = tx.value@.outputs;
    let ghost unresolved = |output: OutputView| !output.resolved();
    let ghost text = |message: String| message@;
    let txid = arr_to_hex_swapped(tx.hash.as_slice());
    let mut messages: Vec<String> = Vec::new();
    let mut i: usize = 0;
    while i < outputs.len()
        invariant
            i <= outputs@.len(),
            paid == outputs_view(outputs@),
            txid@ == hex_swapped(tx.hash@),
            unresolved == |output: OutputView| !output.resolved(),
            text == |message: String| message@,
            messages@.map_values(text) == ignored_messages(tx.hash@, paid.take(i as int)),
        decreases outputs@.len() - i,
    {
        let output = &outputs[i];
        proof {
            assert(paid.take(i + 1) =~= paid.take(i as int).push(paid[i as int]));
            paid.take(i as int).lemma_filter_push(paid[i as int], unresolved);
        }
        if output.script.address.is_none() {
            let mut message = "Ignoring invalid utxo in: ".to_string();
            message.append(txid.as_str());
            message.append(" (");
            message.append(output.script.pattern.as_str());
            message.append(")");
            let ghost before = messages@;
            messages.push(message);
            assert(messages@.map_values(text) =~= before.map_values(text).push(message@));
        }
        i += 1;
    }
    assert(paid.take(i as int) =~= paid);
    messages
}

} // verus!
