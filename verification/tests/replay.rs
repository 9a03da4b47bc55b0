use std::collections::HashMap;
use utxo_index::{
    update_unspents, EvaluatedScript, EvaluatedTxOut, Hashed, Tx, TxInput, TxOutpoint, TxOutput,
    UtxoIndex,
};

fn pays(value: u64, address: &str) -> EvaluatedTxOut {
    EvaluatedTxOut {
        script: EvaluatedScript {
            address: Some(address.to_string()),
            pattern: "Pay2PublicKeyHash".to_string(),
        },
        out: TxOutput { value },
    }
}

fn burns(value: u64) -> EvaluatedTxOut {
    EvaluatedTxOut {
        script: EvaluatedScript { address: None, pattern: "OpReturn".to_string() },
        out: TxOutput { value },
    }
}

fn tx(hash: u8, spends: &[(u8, u32)], outputs: Vec<EvaluatedTxOut>) -> Hashed<Tx> {
    let inputs = spends
        .iter()
        .map(|&(txid, index)| TxInput { outpoint: TxOutpoint::new([txid; 32], index) })
        .collect();
    Hashed { hash: [hash; 32], value: Tx::new(inputs, outputs).unwrap() }
}

fn key(hash: u8, index: u32) -> Vec<u8> {
    TxOutpoint::new([hash; 32], index).to_bytes()
}

#[test]
fn update_spends_first_and_registers_then() {
    let mut unspents = UtxoIndex::new();
    assert_eq!(update_unspents(&tx(1, &[], vec![pays(10, "a"), pays(20, "b")]), 5, &mut unspents), (0, 2));
    // Spends (1, 0) and an output that is not there, registers one of two.
    let counts = update_unspents(&tx(2, &[(1, 0), (9, 9)], vec![burns(0), pays(29, "c")]), 6, &mut unspents);
    assert_eq!(counts, (2, 1));
    assert!(!unspents.contains_key(&key(1, 0)));
    assert_eq!(unspents.get(&key(1, 1)).unwrap().value, 20);
    assert!(!unspents.contains_key(&key(2, 0)));
    let entry = unspents.get(&key(2, 1)).unwrap();
    assert_eq!((entry.block_height, entry.value, entry.address.as_str()), (6, 29, "c"));
    assert_eq!(unspents.len(), 2);
}

#[test]
fn a_transaction_that_names_its_own_output_keeps_it() {
    // The inputs are taken out before the outputs go in.
    let mut unspents = UtxoIndex::new();
    assert_eq!(update_unspents(&tx(3, &[(3, 0)], vec![pays(10, "a")]), 1, &mut unspents), (1, 1));
    assert_eq!(unspents.get(&key(3, 0)).unwrap().value, 10);
}

#[test]
fn the_index_holds_what_was_registered_and_not_spent_since() {
    let ledger = vec![
        (tx(1, &[], vec![pays(50, "a")]), 1u64),
        (tx(2, &[], vec![pays(50, "b")]), 2),
        (tx(3, &[(1, 0)], vec![pays(30, "c"), pays(20, "a")]), 3),
        (tx(4, &[(3, 1), (2, 0)], vec![burns(0), pays(70, "d")]), 3),
        (tx(5, &[(4, 1)], vec![pays(69, "e")]), 4),
    ];
    let mut unspents = UtxoIndex::new();
    for (tx, block_height) in &ledger {
        update_unspents(tx, *block_height, &mut unspents);
    }
    let mut keys = unspents.keys();
    keys.sort();
    assert_eq!(keys, vec![key(3, 0), key(5, 0)]);
    let first = unspents.get(&key(3, 0)).unwrap();
    assert_eq!((first.block_height, first.value, first.address.as_str()), (3, 30, "c"));
    let second = unspents.get(&key(5, 0)).unwrap();
    assert_eq!((second.block_height, second.value, second.address.as_str()), (4, 69, "e"));
}

#[test]
fn an_output_registered_again_after_it_was_spent_is_held_again() {
    let mut unspents = UtxoIndex::new();
    update_unspents(&tx(7, &[], vec![pays(50, "a")]), 91812, &mut unspents);
    update_unspents(&tx(8, &[(7, 0)], vec![pays(50, "b")]), 91820, &mut unspents);
    assert!(!unspents.contains_key(&key(7, 0)));
    update_unspents(&tx(7, &[], vec![pays(50, "a")]), 91842, &mut unspents);
    assert_eq!(unspents.get(&key(7, 0)).unwrap().block_height, 91842);
    assert_eq!(unspents.len(), 2);
}

// A small generator of repeatable pseudo-random numbers.
fn next(state: &mut u64) -> u64 {
    *state = state.wrapping_mul(6364136223846793005).wrapping_add(1442695040888963407);
    *state >> 33
}

#[test]
fn a_replay_agrees_with_a_hash_map_kept_alongside() {
    let mut unspents = UtxoIndex::new();
    let mut model: HashMap<Vec<u8>, (u64, u64, String)> = HashMap::new();
    let mut state = 0xfeed_u64;
    for block_height in 0..3000u64 {
        // Hashes come from a small set, so that outputs get spent and hashes
        // get used again.
        let hash = (next(&mut state) % 40) as u8;
        let spends: Vec<(u8, u32)> = (0..next(&mut state) % 4)
            .map(|_| ((next(&mut state) % 40) as u8, (next(&mut state) % 3) as u32))
            .collect();
        let outputs: Vec<EvaluatedTxOut> = (0..next(&mut state) % 4)
            .map(|_| {
                let value = next(&mut state);
                if next(&mut state) % 4 == 0 {
                    burns(value)
                } else {
                    pays(value, &format!("address {}", value % 7))
                }
            })
            .collect();
        let tx = tx(hash, &spends, outputs);

        for input in tx.value.inputs() {
            model.remove(&input.outpoint.to_bytes());
        }
        let mut registered = 0;
        for (position, output) in tx.value.outputs().iter().enumerate() {
            if let Some(address) = &output.script.address {
                model.insert(
                    TxOutpoint::new(tx.hash, position as u32).to_bytes(),
                    (block_height, output.out.value, address.clone()),
                );
                registered += 1;
            }
        }

        let counts = update_unspents(&tx, block_height, &mut unspents);
        assert_eq!(counts, (spends.len() as u64, registered));
        assert_eq!(unspents.len(), model.len());
    }
    let mut keys = unspents.keys();
    keys.sort();
    let mut expected: Vec<Vec<u8>> = model.keys().cloned().collect();
    expected.sort();
    assert_eq!(keys, expected);
    for key in keys {
        let entry = unspents.get(&key).unwrap();
        assert_eq!(model[&key], (entry.block_height, entry.value, entry.address.clone()));
    }
}
