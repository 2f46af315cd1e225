use hal_psbt::combine::{decode_info, inline_hex};
use hal_psbt::error::{DecodeError, Field};
use hal_psbt::keyed::insert_entry;
use hal_psbt::model::{Psbt, SigHashType, TxOut};
use hal_psbt::psbt::{
    HDPathInfo, InputScriptInfo, OutputInfo, OutputScriptInfo, PsbtGlobalInfo, PsbtInfo,
    PsbtInputInfo, PsbtOutputInfo, TransactionInfo,
};
use hal_psbt::keysource::{child_of, number_of_child, read_path, ChildNumber, KeySource};
use hal_psbt::text::{string_derivation_path, string_sighashtype};
use hal_psbt::HexBytes;

fn small_tx(n_in: usize, n_out: usize) -> Vec<u8> {
    let mut tx = vec![0x02, 0x00, 0x00, 0x00];
    tx.push(n_in as u8);
    for i in 0..n_in {
        tx.extend_from_slice(&[0x11; 31]);
        tx.push(i as u8);
        tx.extend_from_slice(&[0x00, 0x00, 0x00, 0x00]);
        tx.push(0x00);
        tx.extend_from_slice(&[0xff, 0xff, 0xff, 0xff]);
    }
    tx.push(n_out as u8);
    for _ in 0..n_out {
        tx.extend_from_slice(&[0x01, 0x00, 0x00, 0x00, 0x00, 0x00, 0x00, 0x00]);
        tx.push(0x00);
    }
    tx.extend_from_slice(&[0x00, 0x00, 0x00, 0x00]);
    tx
}

fn point(tag: u8) -> Vec<u8> {
    let mut key = vec![0x02];
    key.extend_from_slice(&[tag; 32]);
    key
}

fn entry(key: &[u8], value: &[u8]) -> Vec<u8> {
    let mut out = vec![key.len() as u8];
    out.extend_from_slice(key);
    out.push(value.len() as u8);
    out.extend_from_slice(value);
    out
}

#[test]
fn hex_text_is_lowercase() {
    assert_eq!(HexBytes(vec![0x00, 0x1f, 0xab, 0xff]).to_hex(), "001fabff");
    assert_eq!(HexBytes(vec![]).to_hex(), "");
    assert_eq!(HexBytes::from(vec![0xde, 0xad]).to_hex(), "dead");
    assert_eq!(HexBytes::from(&[0xbe, 0xef][..]), HexBytes(vec![0xbe, 0xef]));
}

#[test]
fn hex_text_is_read_in_either_case() {
    assert_eq!(HexBytes::from_hex("001FabFf"), Some(HexBytes(vec![0x00, 0x1f, 0xab, 0xff])));
    assert_eq!(HexBytes::from_hex(""), Some(HexBytes(vec![])));
    assert_eq!(HexBytes::from_hex("abc"), None);
    assert_eq!(HexBytes::from_hex("zz"), None);
    assert_eq!(HexBytes::from_hex("é0"), None);
    assert_eq!(inline_hex("70736274ff"), Some(vec![0x70, 0x73, 0x62, 0x74, 0xff]));
    assert_eq!(inline_hex("part.psbt"), None);
}

#[test]
fn names_the_signature_hash_types() {
    assert_eq!(string_sighashtype(SigHashType::All), "ALL");
    assert_eq!(string_sighashtype(SigHashType::NoOutputs), "NONE");
    assert_eq!(string_sighashtype(SigHashType::Single), "SINGLE");
    assert_eq!(string_sighashtype(SigHashType::AllPlusAnyoneCanPay), "ALL|ANYONECANPAY");
    assert_eq!(string_sighashtype(SigHashType::NoOutputsPlusAnyoneCanPay), "NONE|ANYONECANPAY");
    assert_eq!(string_sighashtype(SigHashType::SinglePlusAnyoneCanPay), "SINGLE|ANYONECANPAY");
}

#[test]
fn writes_derivation_paths() {
    assert_eq!(string_derivation_path(&[]), "m");
    let path = [
        ChildNumber::Hardened { index: 44 },
        ChildNumber::Hardened { index: 0 },
        ChildNumber::Normal { index: 0 },
        ChildNumber::Normal { index: 1234567890 },
        ChildNumber::Hardened { index: 2147483647 },
    ];
    assert_eq!(string_derivation_path(&path), "m/44'/0'/0/1234567890/2147483647'");
    assert_eq!(string_derivation_path(&[ChildNumber::Normal { index: 10 }]), "m/10");
}

#[test]
fn reads_derivation_records() {
    assert_eq!(child_of(0), ChildNumber::Normal { index: 0 });
    assert_eq!(child_of(0x7fff_ffff), ChildNumber::Normal { index: 0x7fff_ffff });
    assert_eq!(child_of(0x8000_0000), ChildNumber::Hardened { index: 0 });
    assert_eq!(child_of(0xffff_ffff), ChildNumber::Hardened { index: 0x7fff_ffff });
    let record = [0xde, 0xad, 0xbe, 0xef, 0x2c, 0x00, 0x00, 0x80, 0x05, 0x01, 0x00, 0x00];
    assert_eq!(
        read_path(&record),
        vec![ChildNumber::Hardened { index: 44 }, ChildNumber::Normal { index: 261 }]
    );
    assert_eq!(read_path(&[0x01, 0x02, 0x03, 0x04]), vec![]);
    assert_eq!(read_path(&[0x01, 0x02]), vec![]);
    let source = KeySource::from_record(&record).unwrap();
    assert_eq!(source.fingerprint, [0xde, 0xad, 0xbe, 0xef]);
    assert_eq!(source.path, read_path(&record));
    assert_eq!(source.to_record(), record.to_vec());
    assert_eq!(KeySource::from_record(&record[..11]), None);
    assert_eq!(KeySource::from_record(&[0x01, 0x02, 0x03]), None);
    let root = KeySource { fingerprint: [1, 2, 3, 4], path: vec![] };
    assert_eq!(root.to_record(), vec![1, 2, 3, 4]);
    assert_eq!(KeySource::from_record(&[1, 2, 3, 4]), Some(root));
    assert_eq!(number_of_child(ChildNumber::Normal { index: 7 }), 7);
    assert_eq!(number_of_child(ChildNumber::Hardened { index: 7 }), 0x8000_0007);
}

#[test]
fn projects_every_field_of_an_input() {
    let mut psbt = Psbt::from_unsigned_tx(&small_tx(1, 1)).unwrap();
    let input = &mut psbt.inputs[0];
    input.non_witness_utxo = Some(small_tx(1, 2));
    input.witness_utxo = Some(TxOut { value: 77, script_pubkey: vec![0x51] });
    assert!(insert_entry(&mut input.partial_sigs, point(2), vec![0x30, 0x01]));
    input.sighash_type = Some(SigHashType::AllPlusAnyoneCanPay);
    input.redeem_script = Some(vec![0x52]);
    input.witness_script = Some(vec![0x53]);
    assert!(insert_entry(
        &mut input.hd_keypaths,
        point(2),
        vec![0x01, 0x02, 0x03, 0x04, 0x00, 0x00, 0x00, 0x80, 0x07, 0x00, 0x00, 0x00]
    ));
    input.final_script_sig = Some(vec![0x54]);
    input.final_script_witness = Some(vec![vec![0x55], vec![]]);
    assert!(insert_entry(&mut input.unknown, vec![0x60], vec![0x61]));
    let info = PsbtInputInfo::create(&psbt.inputs[0], true);
    let expected = PsbtInputInfo {
        non_witness_utxo: Some(TransactionInfo { raw: HexBytes(small_tx(1, 2)), testnet: true }),
        witness_utxo: Some(OutputInfo {
            value: 77,
            script_pub_key: OutputScriptInfo { hex: HexBytes(vec![0x51]), testnet: true },
        }),
        partial_sigs: vec![(HexBytes(point(2)), HexBytes(vec![0x30, 0x01]))],
        sighash_type: Some("ALL|ANYONECANPAY".to_string()),
        redeem_script: Some(OutputScriptInfo { hex: HexBytes(vec![0x52]), testnet: true }),
        witness_script: Some(OutputScriptInfo { hex: HexBytes(vec![0x53]), testnet: true }),
        hd_keypaths: vec![(
            HexBytes(point(2)),
            HDPathInfo {
                master_fingerprint: HexBytes(vec![0x01, 0x02, 0x03, 0x04]),
                path: "m/0'/7".to_string(),
            },
        )],
        final_script_sig: Some(InputScriptInfo { hex: HexBytes(vec![0x54]) }),
        final_script_witness: Some(vec![HexBytes(vec![0x55]), HexBytes(vec![])]),
    };
    assert_eq!(info, expected);
    assert_eq!(
        info.shown_fields(),
        vec![
            Field::NonWitnessUtxo,
            Field::WitnessUtxo,
            Field::PartialSigs,
            Field::SighashType,
            Field::RedeemScript,
            Field::WitnessScript,
            Field::HdKeypaths,
            Field::FinalScriptSig,
            Field::FinalScriptWitness,
        ]
    );
}

#[test]
fn the_network_flag_goes_through_unchanged() {
    let mut psbt = Psbt::from_unsigned_tx(&small_tx(1, 1)).unwrap();
    psbt.inputs[0].redeem_script = Some(vec![0x52]);
    psbt.outputs[0].redeem_script = Some(vec![0x51]);
    let main = PsbtInfo::create(&psbt, false);
    let test = PsbtInfo::create(&psbt, true);
    assert_eq!(main.global.unsigned_tx, TransactionInfo { raw: HexBytes(small_tx(1, 1)), testnet: false });
    assert_eq!(test.global.unsigned_tx, TransactionInfo { raw: HexBytes(small_tx(1, 1)), testnet: true });
    assert_eq!(main.global, PsbtGlobalInfo::create(&psbt.global, false));
    let script = main.inputs[0].redeem_script.clone().unwrap();
    assert_eq!(script, OutputScriptInfo { hex: HexBytes(vec![0x52]), testnet: false });
    assert_eq!(test.inputs[0].redeem_script.clone().unwrap().hex, script.hex);
    assert_eq!(
        test.outputs[0],
        PsbtOutputInfo {
            redeem_script: Some(OutputScriptInfo { hex: HexBytes(vec![0x51]), testnet: true }),
            witness_script: None,
            hd_keypaths: vec![],
        }
    );
    assert_eq!(PsbtOutputInfo::create(&psbt.outputs[0], true), test.outputs[0]);
}

#[test]
fn what_is_absent_is_not_shown() {
    let mut psbt = Psbt::from_unsigned_tx(&small_tx(2, 2)).unwrap();
    psbt.inputs[0].redeem_script = Some(vec![0x52]);
    assert!(insert_entry(&mut psbt.inputs[1].partial_sigs, point(1), vec![0x30]));
    psbt.outputs[1].redeem_script = Some(vec![]);
    assert!(insert_entry(&mut psbt.outputs[0].unknown, vec![0x44], vec![0x30]));
    let info = PsbtInfo::create(&psbt, false);
    assert_eq!(info.inputs[0].shown_fields(), vec![Field::RedeemScript]);
    assert_eq!(info.inputs[1].shown_fields(), vec![Field::PartialSigs]);
    assert_eq!(info.outputs[0].shown_fields(), vec![]);
    assert_eq!(info.outputs[1].shown_fields(), vec![Field::RedeemScript]);
    for input in &info.inputs {
        assert!(input.witness_script.is_none());
        assert!(!input.shown_fields().contains(&Field::WitnessScript));
    }
    for output in &info.outputs {
        assert!(output.witness_script.is_none());
        assert!(!output.shown_fields().contains(&Field::WitnessScript));
    }
}

#[test]
fn fields_have_the_keys_of_the_document() {
    assert_eq!(Field::NonWitnessUtxo.name(), "non_witness_utxo");
    assert_eq!(Field::WitnessUtxo.name(), "witness_utxo");
    assert_eq!(Field::PartialSigs.name(), "partial_sigs");
    assert_eq!(Field::SighashType.name(), "sighash_type");
    assert_eq!(Field::RedeemScript.name(), "redeem_script");
    assert_eq!(Field::WitnessScript.name(), "witness_script");
    assert_eq!(Field::HdKeypaths.name(), "hd_keypaths");
    assert_eq!(Field::FinalScriptSig.name(), "final_script_sig");
    assert_eq!(Field::FinalScriptWitness.name(), "final_script_witness");
    assert_eq!(Field::Unknown.name(), "unknown");
}

#[test]
fn two_partial_signatures_and_nothing_final() {
    let tx = small_tx(1, 1);
    let mut bytes = vec![0x70, 0x73, 0x62, 0x74, 0xff];
    bytes.extend_from_slice(&entry(&[0x00], &tx));
    bytes.push(0x00);
    let mut first = vec![0x02];
    first.extend_from_slice(&point(0x0b));
    let mut second = vec![0x02];
    second.extend_from_slice(&point(0x0a));
    bytes.extend_from_slice(&entry(&first, &[0x30, 0x44, 0x01]));
    bytes.extend_from_slice(&entry(&second, &[0x30, 0x45, 0x02]));
    bytes.push(0x00);
    bytes.push(0x00);
    let info = decode_info(&bytes, false).unwrap();
    assert_eq!(info.inputs.len(), 1);
    let input = &info.inputs[0];
    assert_eq!(input.partial_sigs.len(), 2);
    assert_eq!(input.partial_sigs[0], (HexBytes(point(0x0a)), HexBytes(vec![0x30, 0x45, 0x02])));
    assert_eq!(input.partial_sigs[1], (HexBytes(point(0x0b)), HexBytes(vec![0x30, 0x44, 0x01])));
    assert_eq!(input.partial_sigs[0].0.to_hex().len(), 66);
    assert!(input.final_script_sig.is_none());
    assert!(input.final_script_witness.is_none());
    assert_eq!(input.shown_fields(), vec![Field::PartialSigs]);
    assert_eq!(info.outputs.len(), 1);
    assert_eq!(decode_info(&bytes[..bytes.len() - 1], false), Err(DecodeError::Truncated));
}
