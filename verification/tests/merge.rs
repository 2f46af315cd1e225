use hal_psbt::combine::{merge_encoded, CombineError};
use hal_psbt::error::{DecodeError, Field, MergeError, Section};
use hal_psbt::keyed::{insert_entry, unite};
use hal_psbt::merge::merge;
use hal_psbt::model::{Input, Output, Psbt, SigHashType, TxOut};
use hal_psbt::wire::Entry;

fn sample_tx(n_in: usize, n_out: usize, locktime: u32) -> Vec<u8> {
    let mut tx = vec![0x01, 0x00, 0x00, 0x00];
    tx.push(n_in as u8);
    for i in 0..n_in {
        tx.extend_from_slice(&[0xcc; 31]);
        tx.push(i as u8);
        tx.extend_from_slice(&[0x01, 0x00, 0x00, 0x00]);
        tx.push(0x00);
        tx.extend_from_slice(&[0xfe, 0xff, 0xff, 0xff]);
    }
    tx.push(n_out as u8);
    for _ in 0..n_out {
        tx.extend_from_slice(&[0x40, 0x42, 0x0f, 0x00, 0x00, 0x00, 0x00, 0x00]);
        tx.push(0x01);
        tx.push(0x51);
    }
    tx.extend_from_slice(&locktime.to_le_bytes());
    tx
}

fn key(tag: u8) -> Vec<u8> {
    let mut key = vec![0x03];
    key.extend_from_slice(&[tag; 32]);
    key
}

fn fresh() -> Psbt {
    Psbt::from_unsigned_tx(&sample_tx(2, 2, 0)).unwrap()
}

fn signer(tag: u8) -> Psbt {
    let mut psbt = fresh();
    assert!(insert_entry(&mut psbt.inputs[1].partial_sigs, key(tag), vec![0x30, tag]));
    psbt
}

#[test]
fn merging_one_container_gives_it_back() {
    let mut psbt = signer(4);
    psbt.inputs[0].redeem_script = Some(vec![0x51]);
    psbt.outputs[1].witness_script = Some(vec![0x52]);
    assert!(insert_entry(&mut psbt.global.unknown, vec![0x01, 0x01], vec![0x05]));
    assert_eq!(merge(&vec![psbt.clone()]), Ok(psbt));
}

#[test]
fn merging_does_not_depend_on_the_order() {
    let mut a = signer(7);
    a.inputs[0].sighash_type = Some(SigHashType::Single);
    a.outputs[0].redeem_script = Some(vec![0x00, 0x01]);
    assert!(insert_entry(&mut a.inputs[0].unknown, vec![0x40], vec![0x01]));
    let mut b = signer(2);
    b.inputs[0].witness_utxo = Some(TxOut { value: 5, script_pubkey: vec![0x51] });
    b.inputs[1].final_script_witness = Some(vec![vec![0x01], vec![]]);
    assert!(insert_entry(&mut b.outputs[1].hd_keypaths, key(1), vec![1, 2, 3, 4, 5, 0, 0, 0]));
    assert!(insert_entry(&mut b.inputs[0].unknown, vec![0x30, 0x00], vec![]));
    let ab = merge(&vec![a.clone(), b.clone()]).unwrap();
    let ba = merge(&vec![b.clone(), a.clone()]).unwrap();
    assert_eq!(ab, ba);
    assert_eq!(ab.inputs[1].partial_sigs.len(), 2);
    assert_eq!(ab.inputs[1].partial_sigs[0].key, key(2));
    assert_eq!(ab.inputs[1].partial_sigs[1].key, key(7));
    assert_eq!(ab.inputs[0].sighash_type, Some(SigHashType::Single));
    assert_eq!(ab.inputs[0].witness_utxo, Some(TxOut { value: 5, script_pubkey: vec![0x51] }));
    assert_eq!(ab.inputs[0].unknown.len(), 2);
    assert_eq!(ab.outputs[0].redeem_script, Some(vec![0x00, 0x01]));
    assert_eq!(ab.outputs[1].hd_keypaths.len(), 1);
    assert_eq!(ab.global.unsigned_tx, sample_tx(2, 2, 0));
}

#[test]
fn merging_equal_fields_keeps_them() {
    let mut a = signer(1);
    a.inputs[0].redeem_script = Some(vec![0x51, 0x52]);
    let mut b = signer(1);
    b.inputs[0].redeem_script = Some(vec![0x51, 0x52]);
    let merged = merge(&vec![a.clone(), b]).unwrap();
    assert_eq!(merged, a);
}

#[test]
fn another_transaction_is_incompatible() {
    let a = Psbt::from_unsigned_tx(&sample_tx(1, 1, 0)).unwrap();
    let b = Psbt::from_unsigned_tx(&sample_tx(1, 1, 1)).unwrap();
    assert_eq!(merge(&vec![a.clone(), b.clone()]), Err(MergeError::Incompatible { index: 1 }));
    assert_eq!(merge(&vec![b.clone(), a.clone()]), Err(MergeError::Incompatible { index: 1 }));
    assert_eq!(
        merge(&vec![a.clone(), a.clone(), b.clone(), a.clone()]),
        Err(MergeError::Incompatible { index: 2 })
    );
}

#[test]
fn incompatibility_is_found_before_any_conflict() {
    let mut a = Psbt::from_unsigned_tx(&sample_tx(1, 1, 0)).unwrap();
    a.inputs[0].redeem_script = Some(vec![0x51]);
    let mut b = a.clone();
    b.inputs[0].redeem_script = Some(vec![0x52]);
    let c = Psbt::from_unsigned_tx(&sample_tx(1, 1, 5)).unwrap();
    assert_eq!(merge(&vec![a, b, c]), Err(MergeError::Incompatible { index: 2 }));
}

#[test]
fn two_values_of_one_field_are_a_conflict() {
    let conflict = |index: usize, field: Field| {
        Err(MergeError::FieldConflict { section: Section::Input, index, field })
    };
    let base = fresh();
    let mut a = base.clone();
    let mut b = base.clone();
    a.inputs[0].non_witness_utxo = Some(sample_tx(1, 1, 0));
    b.inputs[0].non_witness_utxo = Some(sample_tx(1, 1, 1));
    assert_eq!(merge(&vec![a, b]), conflict(0, Field::NonWitnessUtxo));
    let mut a = base.clone();
    let mut b = base.clone();
    a.inputs[1].witness_utxo = Some(TxOut { value: 1, script_pubkey: vec![] });
    b.inputs[1].witness_utxo = Some(TxOut { value: 2, script_pubkey: vec![] });
    assert_eq!(merge(&vec![a, b]), conflict(1, Field::WitnessUtxo));
    let mut a = base.clone();
    let mut b = base.clone();
    a.inputs[0].sighash_type = Some(SigHashType::All);
    b.inputs[0].sighash_type = Some(SigHashType::NoOutputs);
    assert_eq!(merge(&vec![a, b]), conflict(0, Field::SighashType));
    let mut a = base.clone();
    let mut b = base.clone();
    a.inputs[0].redeem_script = Some(vec![0x51]);
    b.inputs[0].redeem_script = Some(vec![0x51, 0x00]);
    assert_eq!(merge(&vec![a, b]), conflict(0, Field::RedeemScript));
    let mut a = base.clone();
    let mut b = base.clone();
    a.inputs[1].witness_script = Some(vec![0x51]);
    b.inputs[1].witness_script = Some(vec![]);
    assert_eq!(merge(&vec![a, b]), conflict(1, Field::WitnessScript));
    let mut a = base.clone();
    let mut b = base.clone();
    a.inputs[0].final_script_sig = Some(vec![0x01]);
    b.inputs[0].final_script_sig = Some(vec![0x02]);
    assert_eq!(merge(&vec![a, b]), conflict(0, Field::FinalScriptSig));
    let mut a = base.clone();
    let mut b = base.clone();
    a.inputs[0].final_script_witness = Some(vec![vec![0x01]]);
    b.inputs[0].final_script_witness = Some(vec![vec![0x01], vec![]]);
    assert_eq!(merge(&vec![a, b]), conflict(0, Field::FinalScriptWitness));
}

#[test]
fn two_values_under_one_key_are_a_conflict() {
    let base = fresh();
    let mut a = base.clone();
    let mut b = base.clone();
    assert!(insert_entry(&mut a.inputs[1].partial_sigs, key(1), vec![0x01]));
    assert!(insert_entry(&mut a.inputs[1].partial_sigs, key(2), vec![0x02]));
    assert!(insert_entry(&mut b.inputs[1].partial_sigs, key(2), vec![0x03]));
    assert_eq!(
        merge(&vec![a, b]),
        Err(MergeError::FieldConflict { section: Section::Input, index: 1, field: Field::PartialSigs })
    );
    let mut a = base.clone();
    let mut b = base.clone();
    assert!(insert_entry(&mut a.outputs[0].hd_keypaths, key(1), vec![1, 2, 3, 4]));
    assert!(insert_entry(&mut b.outputs[0].hd_keypaths, key(1), vec![1, 2, 3, 5]));
    assert_eq!(
        merge(&vec![a, b]),
        Err(MergeError::FieldConflict { section: Section::Output, index: 0, field: Field::HdKeypaths })
    );
    let mut a = base.clone();
    let mut b = base.clone();
    assert!(insert_entry(&mut a.inputs[0].hd_keypaths, key(1), vec![1, 2, 3, 4]));
    assert!(insert_entry(&mut b.inputs[0].hd_keypaths, key(1), vec![1, 2, 3, 4, 0, 0, 0, 0]));
    assert_eq!(
        merge(&vec![a, b]),
        Err(MergeError::FieldConflict { section: Section::Input, index: 0, field: Field::HdKeypaths })
    );
    let mut a = base.clone();
    let mut b = base.clone();
    assert!(insert_entry(&mut a.global.unknown, vec![0x09], vec![0x01]));
    assert!(insert_entry(&mut b.global.unknown, vec![0x09], vec![0x02]));
    assert_eq!(
        merge(&vec![a, b]),
        Err(MergeError::FieldConflict { section: Section::Global, index: 0, field: Field::Unknown })
    );
    let mut a = base.clone();
    let mut b = base.clone();
    assert!(insert_entry(&mut a.outputs[1].unknown, vec![0x09], vec![0x01]));
    assert!(insert_entry(&mut b.outputs[1].unknown, vec![0x09], vec![]));
    assert_eq!(
        merge(&vec![a, b]),
        Err(MergeError::FieldConflict { section: Section::Output, index: 1, field: Field::Unknown })
    );
}

#[test]
fn the_first_conflict_is_reported() {
    let mut a = fresh();
    let mut b = fresh();
    a.inputs[1].redeem_script = Some(vec![0x01]);
    b.inputs[1].redeem_script = Some(vec![0x02]);
    a.inputs[0].witness_script = Some(vec![0x01]);
    b.inputs[0].witness_script = Some(vec![0x02]);
    a.inputs[0].final_script_sig = Some(vec![0x01]);
    b.inputs[0].final_script_sig = Some(vec![0x02]);
    a.outputs[0].redeem_script = Some(vec![0x01]);
    b.outputs[0].redeem_script = Some(vec![0x02]);
    assert_eq!(
        merge(&vec![a, b]),
        Err(MergeError::FieldConflict { section: Section::Input, index: 0, field: Field::WitnessScript })
    );
}

#[test]
fn three_signers_of_one_input() {
    let parts = vec![signer(9), signer(1), signer(5)];
    let merged = merge(&parts).unwrap();
    let expected = vec![
        Entry { key: key(1), value: vec![0x30, 1] },
        Entry { key: key(5), value: vec![0x30, 5] },
        Entry { key: key(9), value: vec![0x30, 9] },
    ];
    assert_eq!(merged.inputs[1].partial_sigs, expected);
    assert_eq!(merged.inputs[0], Input::new());
    assert_eq!(merged.outputs, vec![Output::new(), Output::new()]);
    let again = Psbt::decode(&merged.encode()).unwrap();
    assert_eq!(again.inputs[1].partial_sigs, expected);
    assert_eq!(again, merged);
}

#[test]
fn a_later_locktime_is_incompatible_at_index_one() {
    let a = Psbt::from_unsigned_tx(&sample_tx(2, 1, 500000)).unwrap();
    let b = Psbt::from_unsigned_tx(&sample_tx(2, 1, 500001)).unwrap();
    assert_eq!(merge(&vec![a, b]), Err(MergeError::Incompatible { index: 1 }));
}

#[test]
fn unites_sorted_collections() {
    let a = vec![
        Entry { key: vec![0x01], value: vec![0x0a] },
        Entry { key: vec![0x01, 0x00], value: vec![0x0b] },
        Entry { key: vec![0x03], value: vec![0x0c] },
    ];
    let b = vec![
        Entry { key: vec![], value: vec![0x0d] },
        Entry { key: vec![0x01, 0x00], value: vec![0x0b] },
        Entry { key: vec![0x02, 0xff], value: vec![0x0e] },
    ];
    let expected = vec![
        Entry { key: vec![], value: vec![0x0d] },
        Entry { key: vec![0x01], value: vec![0x0a] },
        Entry { key: vec![0x01, 0x00], value: vec![0x0b] },
        Entry { key: vec![0x02, 0xff], value: vec![0x0e] },
        Entry { key: vec![0x03], value: vec![0x0c] },
    ];
    assert_eq!(unite(&a, &b), Some(expected.clone()));
    assert_eq!(unite(&b, &a), Some(expected));
    assert_eq!(unite(&a, &Vec::new()), Some(a.clone()));
    let c = vec![Entry { key: vec![0x03], value: vec![] }];
    assert_eq!(unite(&a, &c), None);
}

#[test]
fn merges_encoded_containers() {
    let parts = vec![signer(2).encode(), signer(1).encode()];
    let bytes = merge_encoded(&parts).unwrap();
    let merged = Psbt::decode(&bytes).unwrap();
    assert_eq!(merged.inputs[1].partial_sigs.len(), 2);
    assert_eq!(merged, merge(&vec![signer(1), signer(2)]).unwrap());
    assert_eq!(merge_encoded(&vec![signer(3).encode()]), Ok(signer(3).encode()));
}

#[test]
fn merging_encoded_containers_fails_as_a_whole() {
    assert_eq!(merge_encoded(&Vec::new()), Err(CombineError::NoInput));
    let good = signer(1).encode();
    let mut short = good.clone();
    short.pop();
    assert_eq!(
        merge_encoded(&vec![good.clone(), short, vec![0x00]]),
        Err(CombineError::Decode { index: 1, error: DecodeError::Truncated })
    );
    let other = Psbt::from_unsigned_tx(&sample_tx(2, 2, 3)).unwrap().encode();
    assert_eq!(
        merge_encoded(&vec![good.clone(), other]),
        Err(CombineError::Merge(MergeError::Incompatible { index: 1 }))
    );
    let mut rival = signer(1);
    rival.inputs[1].partial_sigs[0].value = vec![0x31];
    assert_eq!(
        merge_encoded(&vec![good, rival.encode()]),
        Err(CombineError::Merge(MergeError::FieldConflict {
            section: Section::Input,
            index: 1,
            field: Field::PartialSigs
        }))
    );
}
