use hal_psbt::error::DecodeError;
use hal_psbt::keyed::insert_entry;
use hal_psbt::model::{Input, Output, Psbt, SigHashType, TxOut};
use hal_psbt::wire::Entry;

fn unsigned_tx(n_in: usize, n_out: usize, locktime: u32) -> Vec<u8> {
    let mut tx = vec![0x02, 0x00, 0x00, 0x00];
    tx.push(n_in as u8);
    for i in 0..n_in {
        tx.extend_from_slice(&[0xaa; 31]);
        tx.push(i as u8);
        tx.extend_from_slice(&[0x00, 0x00, 0x00, 0x00]);
        tx.push(0x00);
        tx.extend_from_slice(&[0xff, 0xff, 0xff, 0xff]);
    }
    tx.push(n_out as u8);
    for _ in 0..n_out {
        tx.extend_from_slice(&[0x00, 0xe1, 0xf5, 0x05, 0x00, 0x00, 0x00, 0x00]);
        tx.push(0x16);
        tx.extend_from_slice(&[0x00, 0x14]);
        tx.extend_from_slice(&[0xbb; 20]);
    }
    tx.extend_from_slice(&locktime.to_le_bytes());
    tx
}

fn pair(key: &[u8], value: &[u8]) -> Vec<u8> {
    let mut out = vec![key.len() as u8];
    out.extend_from_slice(key);
    out.push(value.len() as u8);
    out.extend_from_slice(value);
    out
}

fn container(global: &[Vec<u8>], sections: &[Vec<Vec<u8>>]) -> Vec<u8> {
    let mut out = vec![0x70, 0x73, 0x62, 0x74, 0xff];
    for entry in global {
        out.extend_from_slice(entry);
    }
    out.push(0x00);
    for section in sections {
        for entry in section {
            out.extend_from_slice(entry);
        }
        out.push(0x00);
    }
    out
}

fn pubkey(tag: u8) -> Vec<u8> {
    let mut key = vec![0x02];
    key.extend_from_slice(&[tag; 32]);
    key
}

fn typed_key(kind: u8, data: &[u8]) -> Vec<u8> {
    let mut key = vec![kind];
    key.extend_from_slice(data);
    key
}

fn plain(n_in: usize, n_out: usize) -> Vec<u8> {
    let global = vec![pair(&[0x00], &unsigned_tx(n_in, n_out, 0))];
    let sections: Vec<Vec<Vec<u8>>> = vec![Vec::new(); n_in + n_out];
    container(&global, &sections)
}

#[test]
fn decodes_a_container_without_fields() {
    let bytes = plain(1, 1);
    let psbt = Psbt::decode(&bytes).unwrap();
    assert_eq!(psbt.global.unsigned_tx, unsigned_tx(1, 1, 0));
    assert!(psbt.global.unknown.is_empty());
    assert_eq!(psbt.inputs, vec![Input::new()]);
    assert_eq!(psbt.outputs, vec![Output::new()]);
    assert_eq!(psbt.encode(), bytes);
}

#[test]
fn counts_sections_by_the_transaction() {
    let psbt = Psbt::decode(&plain(3, 2)).unwrap();
    assert_eq!(psbt.inputs.len(), 3);
    assert_eq!(psbt.outputs.len(), 2);
    let fresh = Psbt::from_unsigned_tx(&unsigned_tx(3, 2, 0)).unwrap();
    assert_eq!(fresh, psbt);
}

#[test]
fn encodes_the_exact_bytes() {
    let mut psbt = Psbt::from_unsigned_tx(&unsigned_tx(1, 0, 7)).unwrap();
    psbt.inputs[0].sighash_type = Some(SigHashType::SinglePlusAnyoneCanPay);
    psbt.inputs[0].redeem_script = Some(vec![0x51]);
    let tx = unsigned_tx(1, 0, 7);
    let mut expected = vec![0x70, 0x73, 0x62, 0x74, 0xff, 0x01, 0x00, tx.len() as u8];
    expected.extend_from_slice(&tx);
    expected.push(0x00);
    expected.extend_from_slice(&[0x01, 0x03, 0x04, 0x83, 0x00, 0x00, 0x00]);
    expected.extend_from_slice(&[0x01, 0x04, 0x01, 0x51]);
    expected.push(0x00);
    assert_eq!(psbt.encode(), expected);
}

fn full_container() -> Psbt {
    let mut psbt = Psbt::from_unsigned_tx(&unsigned_tx(2, 1, 0)).unwrap();
    let input = &mut psbt.inputs[0];
    input.non_witness_utxo = Some(unsigned_tx(1, 2, 9));
    input.witness_utxo = Some(TxOut { value: 0x0102030405060708, script_pubkey: vec![0x00, 0x14, 0x01] });
    assert!(insert_entry(&mut input.partial_sigs, pubkey(9), vec![0x30, 0x44]));
    assert!(insert_entry(&mut input.partial_sigs, pubkey(3), vec![0x30, 0x45]));
    input.sighash_type = Some(SigHashType::All);
    input.redeem_script = Some(vec![0x52, 0x21]);
    input.witness_script = Some(vec![0x53]);
    assert!(insert_entry(
        &mut input.hd_keypaths,
        pubkey(3),
        vec![0xde, 0xad, 0xbe, 0xef, 0x2c, 0x00, 0x00, 0x80, 0x05, 0x00, 0x00, 0x00]
    ));
    input.final_script_sig = Some(vec![0x00, 0x47]);
    input.final_script_witness = Some(vec![vec![], vec![0x01, 0x02], vec![0xff; 300]]);
    assert!(insert_entry(&mut input.unknown, vec![0xf0, 0x01], vec![0x07]));
    assert!(insert_entry(&mut input.unknown, vec![0x0f], vec![]));
    let output = &mut psbt.outputs[0];
    output.redeem_script = Some(vec![0x00]);
    output.witness_script = Some(vec![0x51, 0xae]);
    assert!(insert_entry(&mut output.hd_keypaths, pubkey(1), vec![0x01, 0x02, 0x03, 0x04]));
    assert!(insert_entry(&mut output.unknown, vec![0x03, 0x00], vec![0x01]));
    assert!(insert_entry(&mut psbt.global.unknown, vec![0x01, 0x02], vec![0x09, 0x09]));
    psbt
}

#[test]
fn decoding_an_encoded_container_gives_it_back() {
    let psbt = full_container();
    let bytes = psbt.encode();
    assert_eq!(Psbt::decode(&bytes), Ok(psbt.clone()));
    assert_eq!(Psbt::decode(&bytes).unwrap().encode(), bytes);
    assert_eq!(psbt.copy(), psbt);
}

#[test]
fn keeps_keyed_collections_in_key_order() {
    let psbt = full_container();
    let sigs = &psbt.inputs[0].partial_sigs;
    assert_eq!(sigs[0], Entry { key: pubkey(3), value: vec![0x30, 0x45] });
    assert_eq!(sigs[1], Entry { key: pubkey(9), value: vec![0x30, 0x44] });
    let unknown = &psbt.inputs[0].unknown;
    assert_eq!(unknown[0].key, vec![0x0f]);
    assert_eq!(unknown[1].key, vec![0xf0, 0x01]);
}

#[test]
fn takes_entries_in_any_order() {
    let tx = unsigned_tx(1, 0, 0);
    let global = vec![pair(&[0x00], &tx)];
    let sig_a = pair(&typed_key(0x02, &pubkey(1)), &[0x0a]);
    let sig_b = pair(&typed_key(0x02, &pubkey(2)), &[0x0b]);
    let script = pair(&[0x04], &[0x51]);
    let one = container(&global, &[vec![sig_b.clone(), script.clone(), sig_a.clone()]]);
    let two = container(&global, &[vec![sig_a.clone(), sig_b.clone(), script.clone()]]);
    let first = Psbt::decode(&one).unwrap();
    let second = Psbt::decode(&two).unwrap();
    assert_eq!(first, second);
    assert_eq!(first.encode(), two);
    assert_eq!(first.inputs[0].partial_sigs.len(), 2);
}

#[test]
fn carries_unknown_fields_through() {
    let tx = unsigned_tx(1, 1, 0);
    let global = vec![pair(&[0x00], &tx), pair(&[0xfc, 0x01], &[0x11, 0x22])];
    let bytes = container(
        &global,
        &[vec![pair(&[0x20, 0x01], &[0xab])], vec![pair(&[0x77], &[])]],
    );
    let psbt = Psbt::decode(&bytes).unwrap();
    assert_eq!(psbt.global.unknown, vec![Entry { key: vec![0xfc, 0x01], value: vec![0x11, 0x22] }]);
    assert_eq!(psbt.inputs[0].unknown, vec![Entry { key: vec![0x20, 0x01], value: vec![0xab] }]);
    assert_eq!(psbt.outputs[0].unknown, vec![Entry { key: vec![0x77], value: vec![] }]);
    assert_eq!(psbt.encode(), bytes);
}

#[test]
fn writes_long_values_behind_longer_prefixes() {
    let mut psbt = Psbt::from_unsigned_tx(&unsigned_tx(1, 0, 0)).unwrap();
    psbt.inputs[0].redeem_script = Some(vec![0x6a; 253]);
    psbt.inputs[0].witness_script = Some(vec![0x6a; 70000]);
    let bytes = psbt.encode();
    let start = 5 + 3 + unsigned_tx(1, 0, 0).len() + 1;
    assert_eq!(&bytes[start..start + 5], &[0x01, 0x04, 0xfd, 0xfd, 0x00]);
    let next = start + 5 + 253;
    assert_eq!(&bytes[next..next + 7], &[0x01, 0x05, 0xfe, 0x70, 0x11, 0x01, 0x00]);
    assert_eq!(Psbt::decode(&bytes), Ok(psbt));
}

#[test]
fn refuses_wrong_magic() {
    let mut bytes = plain(1, 1);
    bytes[4] = 0xfe;
    assert_eq!(Psbt::decode(&bytes), Err(DecodeError::BadMagic));
    assert_eq!(Psbt::decode(&[0x70, 0x73, 0x62, 0x74]), Err(DecodeError::BadMagic));
    assert_eq!(Psbt::decode(&[]), Err(DecodeError::BadMagic));
}

#[test]
fn refuses_truncated_bytes() {
    let bytes = plain(1, 1);
    assert_eq!(Psbt::decode(&bytes[..bytes.len() - 1]), Err(DecodeError::Truncated));
    assert_eq!(Psbt::decode(&bytes[..20]), Err(DecodeError::Truncated));
    assert_eq!(Psbt::decode(&bytes[..5]), Err(DecodeError::Truncated));
    assert_eq!(Psbt::decode(&bytes[..6]), Err(DecodeError::Truncated));
}

#[test]
fn refuses_trailing_bytes() {
    let mut bytes = plain(1, 1);
    bytes.push(0x00);
    assert_eq!(Psbt::decode(&bytes), Err(DecodeError::TrailingBytes));
}

#[test]
fn refuses_a_prefix_that_is_longer_than_needed() {
    let tx = unsigned_tx(1, 0, 0);
    let mut bytes = vec![0x70, 0x73, 0x62, 0x74, 0xff, 0xfd, 0x01, 0x00, 0x00, tx.len() as u8];
    bytes.extend_from_slice(&tx);
    bytes.extend_from_slice(&[0x00, 0x00]);
    assert_eq!(Psbt::decode(&bytes), Err(DecodeError::NonMinimalLength));
}

#[test]
fn refuses_a_key_that_occurs_twice() {
    let tx = unsigned_tx(1, 0, 0);
    let global = vec![pair(&[0x00], &tx)];
    let script = pair(&[0x04], &[0x51]);
    let other = pair(&[0x04], &[0x52]);
    let bytes = container(&global, &[vec![script, other]]);
    assert_eq!(Psbt::decode(&bytes), Err(DecodeError::DuplicateKey));
    let sig = pair(&typed_key(0x02, &pubkey(1)), &[0x0a]);
    let bytes = container(&global, &[vec![sig.clone(), sig]]);
    assert_eq!(Psbt::decode(&bytes), Err(DecodeError::DuplicateKey));
    let unknown = pair(&[0x99, 0x01], &[0x0a]);
    let bytes = container(&global, &[vec![unknown.clone(), unknown]]);
    assert_eq!(Psbt::decode(&bytes), Err(DecodeError::DuplicateKey));
    let bytes = container(&[pair(&[0x00], &tx), pair(&[0x00], &tx)], &[vec![]]);
    assert_eq!(Psbt::decode(&bytes), Err(DecodeError::DuplicateKey));
}

#[test]
fn refuses_a_key_of_the_wrong_length() {
    let tx = unsigned_tx(1, 1, 0);
    let global = vec![pair(&[0x00], &tx)];
    let bytes = container(&global, &[vec![pair(&[0x04, 0x00], &[0x51])], vec![]]);
    assert_eq!(Psbt::decode(&bytes), Err(DecodeError::InvalidKey));
    let short = pair(&typed_key(0x02, &[0x02; 32]), &[0x0a]);
    let bytes = container(&global, &[vec![short], vec![]]);
    assert_eq!(Psbt::decode(&bytes), Err(DecodeError::InvalidKey));
    let bytes = container(&global, &[vec![], vec![pair(&[0x02], &[1, 2, 3, 4])]]);
    assert_eq!(Psbt::decode(&bytes), Err(DecodeError::InvalidKey));
    let bytes = container(&[pair(&[0x00, 0x01], &tx)], &[vec![], vec![]]);
    assert_eq!(Psbt::decode(&bytes), Err(DecodeError::InvalidKey));
}

#[test]
fn refuses_a_value_of_the_wrong_length() {
    let tx = unsigned_tx(1, 1, 0);
    let global = vec![pair(&[0x00], &tx)];
    let bytes = container(&global, &[vec![pair(&[0x03], &[0x01, 0x00, 0x00])], vec![]]);
    assert_eq!(Psbt::decode(&bytes), Err(DecodeError::InvalidValue));
    let bytes = container(&global, &[vec![pair(&[0x03], &[0x04, 0x00, 0x00, 0x00])], vec![]]);
    assert_eq!(Psbt::decode(&bytes), Err(DecodeError::InvalidValue));
    let path = pair(&typed_key(0x06, &pubkey(1)), &[0xde, 0xad, 0xbe]);
    let bytes = container(&global, &[vec![path], vec![]]);
    assert_eq!(Psbt::decode(&bytes), Err(DecodeError::InvalidValue));
    let path = pair(&typed_key(0x02, &pubkey(1)), &[0xde, 0xad, 0xbe, 0xef, 0x01]);
    let bytes = container(&global, &[vec![], vec![path]]);
    assert_eq!(Psbt::decode(&bytes), Err(DecodeError::InvalidValue));
    let utxo = pair(&[0x01], &[0x01, 0x02, 0x03, 0x04, 0x05, 0x06, 0x07, 0x08, 0x02, 0x51]);
    let bytes = container(&global, &[vec![utxo], vec![]]);
    assert_eq!(Psbt::decode(&bytes), Err(DecodeError::InvalidValue));
    let witness = pair(&[0x08], &[0x02, 0x01, 0xaa]);
    let bytes = container(&global, &[vec![witness], vec![]]);
    assert_eq!(Psbt::decode(&bytes), Err(DecodeError::InvalidValue));
}

#[test]
fn refuses_what_is_no_unsigned_transaction() {
    let bytes = container(&[pair(&[0x00], &[0x01, 0x02, 0x03])], &[]);
    assert_eq!(Psbt::decode(&bytes), Err(DecodeError::InvalidTransaction));
    let mut signed = unsigned_tx(1, 1, 0);
    signed[41] = 0x01;
    signed.insert(42, 0x51);
    let bytes = container(&[pair(&[0x00], &signed)], &[vec![], vec![]]);
    assert_eq!(Psbt::decode(&bytes), Err(DecodeError::InvalidTransaction));
    assert_eq!(Psbt::from_unsigned_tx(&signed), Err(DecodeError::InvalidTransaction));
    let global = vec![pair(&[0x00], &unsigned_tx(1, 0, 0))];
    let bytes = container(&global, &[vec![pair(&[0x00], &[0xff, 0xff])]]);
    assert_eq!(Psbt::decode(&bytes), Err(DecodeError::InvalidTransaction));
}

#[test]
fn takes_a_signed_transaction_as_a_previous_one() {
    let mut signed = unsigned_tx(1, 1, 0);
    signed[41] = 0x01;
    signed.insert(42, 0x51);
    let global = vec![pair(&[0x00], &unsigned_tx(1, 0, 0))];
    let bytes = container(&global, &[vec![pair(&[0x00], &signed)]]);
    let psbt = Psbt::decode(&bytes).unwrap();
    assert_eq!(psbt.inputs[0].non_witness_utxo, Some(signed));
}

#[test]
fn refuses_a_global_map_without_a_transaction() {
    let bytes = container(&[], &[]);
    assert_eq!(Psbt::decode(&bytes), Err(DecodeError::MissingTransaction));
    let bytes = container(&[pair(&[0x05], &[0x01])], &[]);
    assert_eq!(Psbt::decode(&bytes), Err(DecodeError::MissingTransaction));
}

#[test]
fn reads_each_typed_value() {
    let tx = unsigned_tx(1, 0, 0);
    let global = vec![pair(&[0x00], &tx)];
    let utxo = pair(&[0x01], &[0x10, 0x27, 0x00, 0x00, 0x00, 0x00, 0x00, 0x00, 0x02, 0x51, 0x52]);
    let sighash = pair(&[0x03], &[0x82, 0x00, 0x00, 0x00]);
    let witness = pair(&[0x08], &[0x02, 0x00, 0x03, 0x0a, 0x0b, 0x0c]);
    let bytes = container(&global, &[vec![utxo, sighash, witness]]);
    let psbt = Psbt::decode(&bytes).unwrap();
    assert_eq!(
        psbt.inputs[0].witness_utxo,
        Some(TxOut { value: 10000, script_pubkey: vec![0x51, 0x52] })
    );
    assert_eq!(psbt.inputs[0].sighash_type, Some(SigHashType::NoOutputsPlusAnyoneCanPay));
    assert_eq!(psbt.inputs[0].final_script_witness, Some(vec![vec![], vec![0x0a, 0x0b, 0x0c]]));
    assert_eq!(psbt.encode(), bytes);
}

#[test]
fn magic_is_the_same_in_every_container() {
    assert_eq!(&plain(1, 1)[..5], b"psbt\xff");
    assert_eq!(&full_container().encode()[..5], b"psbt\xff");
}
