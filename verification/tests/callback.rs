use utxo_index::{
    insert_unspents, remove_unspents, EvaluatedScript, EvaluatedTxOut, Hashed, Tx, TxInput,
    TxOutpoint, TxOutput, UtxoIndex,
};

fn hash_from_hex(hex: &str) -> [u8; 32] {
    assert_eq!(hex.len(), 64);
    let mut hash = [0u8; 32];
    for (i, byte) in hash.iter_mut().enumerate() {
        *byte = u8::from_str_radix(&hex[2 * i..2 * i + 2], 16).unwrap();
    }
    hash
}

fn input(txid_hex: &str, index: u32) -> TxInput {
    TxInput { outpoint: TxOutpoint::new(hash_from_hex(txid_hex), index) }
}

fn pay_to_address(value: u64, address: &str) -> EvaluatedTxOut {
    EvaluatedTxOut {
        script: EvaluatedScript {
            address: Some(address.to_string()),
            pattern: "Pay2PublicKeyHash".to_string(),
        },
        out: TxOutput { value },
    }
}

fn non_standard(value: u64, pattern: &str) -> EvaluatedTxOut {
    EvaluatedTxOut {
        script: EvaluatedScript { address: None, pattern: pattern.to_string() },
        out: TxOutput { value },
    }
}

fn transaction(hash_hex: &str, inputs: Vec<TxInput>, outputs: Vec<EvaluatedTxOut>) -> Hashed<Tx> {
    Hashed { hash: hash_from_hex(hash_hex), value: Tx::new(inputs, outputs).unwrap() }
}

// Txid fff2525b8931402dd09222c50775608f75787bd2b87e56995a7bdd30f79702c4, which
// increases the balance of 1JqDybm2nWTENrHvMyafbSXXtTk5Uv5QAn by 5.56 BTC.
// Hashes are written in the byte order of the wire.
fn funding_transaction() -> Hashed<Tx> {
    transaction(
        "c40297f730dd7b5a99567eb8d27b78758f607507c52292d02d4031895b52f2ff",
        vec![input("032e38e9c0a84c6046d687d10556dcacc41d275ec55fc00779ac88fdf357a187", 0)],
        vec![
            pay_to_address(556000000, "1JqDybm2nWTENrHvMyafbSXXtTk5Uv5QAn"),
            pay_to_address(4444000000, "1EYTGtG4LnFfiMvjJdsU7GMGCQvsRSjYhx"),
        ],
    )
}

// Txid 5aa8e36f9423ee5fcf17c1d0d45d6988b8a5773eae8ad25d945bf34352040009, which
// decreases the balance of 1JqDybm2nWTENrHvMyafbSXXtTk5Uv5QAn by 5.56 BTC.
fn spending_transaction() -> Hashed<Tx> {
    transaction(
        "0900045243f35b945dd28aae3e77a5b888695dd4d0c117cf5fee23946fe3a85a",
        vec![
            input("8233beef0f3af0855623eeba09e96cf062e7afaf5c5af1668e35b68d11ca1d79", 1),
            input("03bd76c6157da48e47a42474a9eb01b514f85b8e0abc0126c1623a6651526b35", 1),
            input("0e641a894cf18e974d55654a9be1b35022d010968ded769f657f12fca167919b", 0),
            input("3ecbb109358ddc26df7d96758078b1523c7a95877d45290c8fb1b2dad695f3be", 1),
            input("9bcb0505c429acc0a3f467f2a98ef742641eccd2c18519bc9885e2b450d098a8", 0),
            input("a3ed30e4115cbe4c6bc23fcbabbc2a3b06dcb634a4bbf20be0c4b36f0b8329a5", 0),
            input("c40297f730dd7b5a99567eb8d27b78758f607507c52292d02d4031895b52f2ff", 0),
            input("ca5065ff9617cbcba45eb23726df6498a9b9cafed4f54cbab9d227b0035ddefb", 1),
            input("f98a5264d2dfe181a9bcf1dd5b80d249de240242b79419a85ab20fd5190b8f1a", 0),
        ],
        vec![pay_to_address(9070000000, "1EYXXHs5gV4pc7QAddmDj5z7m14QPHGvWL")],
    )
}

#[test]
fn test_callback() {
    let mut unspents = UtxoIndex::new();

    let block1 = vec![funding_transaction()];
    for tx in &block1 {
        remove_unspents(tx, &mut unspents);
        insert_unspents(tx, 100000, &mut unspents);
    }
    let value = unspents.get(&TxOutpoint::new(block1[0].hash, 0).to_bytes()).unwrap();
    assert_eq!(value.block_height, 100000);
    assert_eq!(value.value, 556000000);
    assert_eq!(value.address, "1JqDybm2nWTENrHvMyafbSXXtTk5Uv5QAn");

    let block2 = vec![spending_transaction()];
    for tx in &block2 {
        remove_unspents(tx, &mut unspents);
        insert_unspents(tx, 105001, &mut unspents);
    }

    // The output that the second block spends is no longer in the index.
    assert!(unspents.get(&TxOutpoint::new(block1[0].hash, 0).to_bytes()).is_none());

    let value = unspents.get(&TxOutpoint::new(block2[0].hash, 0).to_bytes()).unwrap();
    assert_eq!(value.block_height, 105001);
    assert_eq!(value.value, 9070000000);
    assert_eq!(value.address, "1EYXXHs5gV4pc7QAddmDj5z7m14QPHGvWL");
}

#[test]
fn registering_returns_the_number_of_resolved_outputs() {
    let mut unspents = UtxoIndex::new();
    let tx = funding_transaction();
    assert_eq!(insert_unspents(&tx, 100000, &mut unspents), 2);
    let second = unspents.get(&TxOutpoint::new(tx.hash, 1).to_bytes()).unwrap();
    assert_eq!(second.block_height, 100000);
    assert_eq!(second.value, 4444000000);
    assert_eq!(second.address, "1EYTGtG4LnFfiMvjJdsU7GMGCQvsRSjYhx");
    assert!(unspents.get(&TxOutpoint::new(tx.hash, 2).to_bytes()).is_none());
}

#[test]
fn spending_returns_the_number_of_inputs() {
    let mut unspents = UtxoIndex::new();
    insert_unspents(&funding_transaction(), 100000, &mut unspents);
    // Nine inputs, of which one names an output that the index holds.
    assert_eq!(remove_unspents(&spending_transaction(), &mut unspents), 9);
    let funding = funding_transaction();
    assert!(!unspents.contains_key(&TxOutpoint::new(funding.hash, 0).to_bytes()));
    assert!(unspents.contains_key(&TxOutpoint::new(funding.hash, 1).to_bytes()));
}

#[test]
fn spending_from_an_empty_index_changes_nothing() {
    let mut unspents = UtxoIndex::new();
    assert_eq!(remove_unspents(&spending_transaction(), &mut unspents), 9);
    let spending = spending_transaction();
    for input in spending.value.inputs() {
        assert!(!unspents.contains_key(&input.outpoint.to_bytes()));
    }
}

#[test]
fn spending_twice_is_spending_once() {
    let mut unspents = UtxoIndex::new();
    insert_unspents(&funding_transaction(), 100000, &mut unspents);
    let spending = spending_transaction();
    let funding = funding_transaction();
    assert_eq!(remove_unspents(&spending, &mut unspents), 9);
    let kept = unspents.get(&TxOutpoint::new(funding.hash, 1).to_bytes()).unwrap().value;
    assert_eq!(remove_unspents(&spending, &mut unspents), 9);
    assert!(!unspents.contains_key(&TxOutpoint::new(funding.hash, 0).to_bytes()));
    assert_eq!(unspents.get(&TxOutpoint::new(funding.hash, 1).to_bytes()).unwrap().value, kept);
}

#[test]
fn a_transaction_without_inputs_or_outputs_changes_nothing() {
    let mut unspents = UtxoIndex::new();
    insert_unspents(&funding_transaction(), 100000, &mut unspents);
    let empty = transaction(
        "00000000000000000000000000000000000000000000000000000000000000ff",
        vec![],
        vec![],
    );
    assert_eq!(remove_unspents(&empty, &mut unspents), 0);
    assert_eq!(insert_unspents(&empty, 7, &mut unspents), 0);
    let funding = funding_transaction();
    assert!(unspents.contains_key(&TxOutpoint::new(funding.hash, 0).to_bytes()));
    assert!(unspents.contains_key(&TxOutpoint::new(funding.hash, 1).to_bytes()));
}

#[test]
fn non_standard_outputs_are_passed_over() {
    let mut unspents = UtxoIndex::new();
    let tx = transaction(
        "1111111111111111111111111111111111111111111111111111111111111111",
        vec![],
        vec![
            pay_to_address(10, "1JqDybm2nWTENrHvMyafbSXXtTk5Uv5QAn"),
            non_standard(20, "OpReturn"),
            pay_to_address(30, "1EYXXHs5gV4pc7QAddmDj5z7m14QPHGvWL"),
            non_standard(40, "NotRecognised"),
        ],
    );
    assert_eq!(insert_unspents(&tx, 42, &mut unspents), 2);
    assert_eq!(unspents.get(&TxOutpoint::new(tx.hash, 0).to_bytes()).unwrap().value, 10);
    assert!(unspents.get(&TxOutpoint::new(tx.hash, 1).to_bytes()).is_none());
    let third = unspents.get(&TxOutpoint::new(tx.hash, 2).to_bytes()).unwrap();
    assert_eq!(third.value, 30);
    assert_eq!(third.block_height, 42);
    assert_eq!(third.address, "1EYXXHs5gV4pc7QAddmDj5z7m14QPHGvWL");
    assert!(unspents.get(&TxOutpoint::new(tx.hash, 3).to_bytes()).is_none());
}

#[test]
fn a_transaction_of_non_standard_outputs_registers_nothing() {
    let mut unspents = UtxoIndex::new();
    let tx = transaction(
        "2222222222222222222222222222222222222222222222222222222222222222",
        vec![],
        vec![non_standard(1, "OpReturn"), non_standard(2, "NotRecognised")],
    );
    assert_eq!(insert_unspents(&tx, 1, &mut unspents), 0);
    assert!(!unspents.contains_key(&TxOutpoint::new(tx.hash, 0).to_bytes()));
    assert!(!unspents.contains_key(&TxOutpoint::new(tx.hash, 1).to_bytes()));
}

#[test]
fn a_reused_hash_overwrites_the_older_entry() {
    let mut unspents = UtxoIndex::new();
    let hash = "3333333333333333333333333333333333333333333333333333333333333333";
    let older = transaction(hash, vec![], vec![pay_to_address(50, "1JqDybm2nWTENrHvMyafbSXXtTk5Uv5QAn")]);
    let newer = transaction(hash, vec![], vec![pay_to_address(60, "1EYXXHs5gV4pc7QAddmDj5z7m14QPHGvWL")]);
    assert_eq!(insert_unspents(&older, 91722, &mut unspents), 1);
    assert_eq!(insert_unspents(&newer, 91880, &mut unspents), 1);
    let entry = unspents.get(&TxOutpoint::new(newer.hash, 0).to_bytes()).unwrap();
    assert_eq!(entry.block_height, 91880);
    assert_eq!(entry.value, 60);
    assert_eq!(entry.address, "1EYXXHs5gV4pc7QAddmDj5z7m14QPHGvWL");
}

#[test]
fn a_transaction_may_spend_what_an_earlier_one_in_the_block_created() {
    let mut unspents = UtxoIndex::new();
    let first = funding_transaction();
    let second = transaction(
        "4444444444444444444444444444444444444444444444444444444444444444",
        vec![input("c40297f730dd7b5a99567eb8d27b78758f607507c52292d02d4031895b52f2ff", 1)],
        vec![pay_to_address(4443990000, "1JqDybm2nWTENrHvMyafbSXXtTk5Uv5QAn")],
    );
    for tx in [&first, &second] {
        remove_unspents(tx, &mut unspents);
        insert_unspents(tx, 100000, &mut unspents);
    }
    assert!(unspents.contains_key(&TxOutpoint::new(first.hash, 0).to_bytes()));
    assert!(!unspents.contains_key(&TxOutpoint::new(first.hash, 1).to_bytes()));
    assert_eq!(unspents.get(&TxOutpoint::new(second.hash, 0).to_bytes()).unwrap().value, 4443990000);
}
