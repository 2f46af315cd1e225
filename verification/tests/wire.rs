use hal_psbt::bytes::{append_bytes, bytes_eq, copy_bytes, lex_rank, Rank};
use hal_psbt::compact::{
    read_compact, read_le16, read_le32, read_le64, write_compact, write_le16, write_le32,
    write_le64,
};
use hal_psbt::error::DecodeError;
use hal_psbt::global::GLOBAL_UNSIGNED_TX;
use hal_psbt::input::{IN_HD_KEYPATH, IN_PARTIAL_SIG, IN_REDEEM_SCRIPT};
use hal_psbt::keyed::{copy_entries, copy_entry, find_rank, insert_entry};
use hal_psbt::model::{Global, Input, Output, SigHashType, TxOut};
use hal_psbt::tx::{check_transaction, count_unsigned, counts_of_layout, no_signatures};
use hal_psbt::values::{
    decode_sighash, decode_txout, decode_witness, encode_sighash, encode_txout, encode_witness,
    sighash_from_u32, sighash_to_u32,
};
use hal_psbt::wire::{read_map, read_prefixed, write_map, write_prefixed, Entry};

fn compact_of(n: u64) -> Vec<u8> {
    let mut out = Vec::new();
    write_compact(&mut out, n);
    out
}

fn tiny_tx(script_sig: &[u8]) -> Vec<u8> {
    let mut tx = vec![0x02, 0x00, 0x00, 0x00, 0x01];
    tx.extend_from_slice(&[0x22; 32]);
    tx.extend_from_slice(&[0x03, 0x00, 0x00, 0x00]);
    tx.push(script_sig.len() as u8);
    tx.extend_from_slice(script_sig);
    tx.extend_from_slice(&[0xff, 0xff, 0xff, 0xff]);
    tx.push(0x02);
    for _ in 0..2 {
        tx.extend_from_slice(&[0x01, 0x00, 0x00, 0x00, 0x00, 0x00, 0x00, 0x00, 0x00]);
    }
    tx.extend_from_slice(&[0x00, 0x00, 0x00, 0x00]);
    tx
}

#[test]
fn size_prefixes_have_the_shortest_form() {
    assert_eq!(compact_of(0), vec![0x00]);
    assert_eq!(compact_of(252), vec![0xfc]);
    assert_eq!(compact_of(253), vec![0xfd, 0xfd, 0x00]);
    assert_eq!(compact_of(0xffff), vec![0xfd, 0xff, 0xff]);
    assert_eq!(compact_of(0x10000), vec![0xfe, 0x00, 0x00, 0x01, 0x00]);
    assert_eq!(compact_of(0xffff_ffff), vec![0xfe, 0xff, 0xff, 0xff, 0xff]);
    assert_eq!(
        compact_of(0x1_0000_0000),
        vec![0xff, 0x00, 0x00, 0x00, 0x00, 0x01, 0x00, 0x00, 0x00]
    );
    assert_eq!(compact_of(u64::MAX), vec![0xff; 9]);
}

#[test]
fn size_prefixes_are_read_back() {
    for n in [0u64, 1, 252, 253, 254, 0xffff, 0x10000, 0xffff_ffff, 0x1_0000_0000, u64::MAX] {
        let mut bytes = vec![0xee];
        write_compact(&mut bytes, n);
        let end = bytes.len();
        bytes.push(0x99);
        assert_eq!(read_compact(&bytes, 1), Ok((n, end)));
    }
}

#[test]
fn size_prefixes_are_refused() {
    assert_eq!(read_compact(&[], 0), Err(DecodeError::Truncated));
    assert_eq!(read_compact(&[0x01], 1), Err(DecodeError::Truncated));
    assert_eq!(read_compact(&[0xfd, 0x01], 0), Err(DecodeError::Truncated));
    assert_eq!(read_compact(&[0xfe, 0x01, 0x02, 0x03], 0), Err(DecodeError::Truncated));
    assert_eq!(read_compact(&[0xff, 1, 2, 3, 4, 5, 6, 7], 0), Err(DecodeError::Truncated));
    assert_eq!(read_compact(&[0xfd, 0xfc, 0x00], 0), Err(DecodeError::NonMinimalLength));
    assert_eq!(read_compact(&[0xfe, 0xff, 0xff, 0x00, 0x00], 0), Err(DecodeError::NonMinimalLength));
    assert_eq!(
        read_compact(&[0xff, 0xff, 0xff, 0xff, 0xff, 0, 0, 0, 0], 0),
        Err(DecodeError::NonMinimalLength)
    );
}

#[test]
fn numbers_are_little_endian() {
    let mut out = Vec::new();
    write_le16(&mut out, 0x0102);
    write_le32(&mut out, 0x0304_0506);
    write_le64(&mut out, 0x0708_090a_0b0c_0d0e);
    assert_eq!(
        out,
        vec![0x02, 0x01, 0x06, 0x05, 0x04, 0x03, 0x0e, 0x0d, 0x0c, 0x0b, 0x0a, 0x09, 0x08, 0x07]
    );
    assert_eq!(read_le16(&out, 0), 0x0102);
    assert_eq!(read_le32(&out, 2), 0x0304_0506);
    assert_eq!(read_le64(&out, 6), 0x0708_090a_0b0c_0d0e);
    assert_eq!(read_le64(&[0xff; 8], 0), u64::MAX);
}

#[test]
fn byte_strings_are_ordered_lexicographically() {
    assert_eq!(lex_rank(&[], &[]), Rank::Same);
    assert_eq!(lex_rank(&[], &[0x00]), Rank::Before);
    assert_eq!(lex_rank(&[0x00], &[]), Rank::After);
    assert_eq!(lex_rank(&[0x01, 0x02], &[0x01, 0x02, 0x00]), Rank::Before);
    assert_eq!(lex_rank(&[0x01, 0x03], &[0x01, 0x02, 0xff]), Rank::After);
    assert_eq!(lex_rank(&[0x7f], &[0x80]), Rank::Before);
    assert_eq!(lex_rank(&[0x05, 0x06], &[0x05, 0x06]), Rank::Same);
    assert!(bytes_eq(&[1, 2, 3], &[1, 2, 3]));
    assert!(!bytes_eq(&[1, 2, 3], &[1, 2]));
    assert!(!bytes_eq(&[1, 2, 3], &[1, 2, 4]));
    assert_eq!(copy_bytes(&[9, 8]), vec![9, 8]);
    let mut out = vec![1];
    append_bytes(&mut out, &[2, 3]);
    append_bytes(&mut out, &[]);
    assert_eq!(out, vec![1, 2, 3]);
}

#[test]
fn entries_go_to_their_places() {
    let mut map: Vec<Entry> = Vec::new();
    assert_eq!(find_rank(&map, &[0x05]), 0);
    assert!(insert_entry(&mut map, vec![0x05], vec![1]));
    assert!(insert_entry(&mut map, vec![0x01], vec![2]));
    assert!(insert_entry(&mut map, vec![0x05, 0x00], vec![3]));
    assert!(insert_entry(&mut map, vec![0x03], vec![4]));
    assert!(!insert_entry(&mut map, vec![0x03], vec![5]));
    let keys: Vec<Vec<u8>> = map.iter().map(|e| e.key.clone()).collect();
    assert_eq!(keys, vec![vec![0x01], vec![0x03], vec![0x05], vec![0x05, 0x00]]);
    assert_eq!(map[1].value, vec![4]);
    assert_eq!(find_rank(&map, &[0x00]), 0);
    assert_eq!(find_rank(&map, &[0x03]), 1);
    assert_eq!(find_rank(&map, &[0x04]), 2);
    assert_eq!(find_rank(&map, &[0xff]), 4);
    assert_eq!(copy_entries(&map), map);
    assert_eq!(copy_entry(&map[0]), map[0]);
}

#[test]
fn maps_are_framed() {
    let entries = vec![
        Entry { key: vec![0x09, 0x01], value: vec![0xaa, 0xbb, 0xcc] },
        Entry { key: vec![0x02], value: vec![] },
    ];
    let mut bytes = vec![0x77];
    write_map(&mut bytes, &entries);
    assert_eq!(
        bytes,
        vec![0x77, 0x02, 0x09, 0x01, 0x03, 0xaa, 0xbb, 0xcc, 0x01, 0x02, 0x00, 0x00]
    );
    assert_eq!(read_map(&bytes, 1), Ok((entries, bytes.len())));
    assert_eq!(read_map(&bytes, 8), Ok((vec![Entry { key: vec![0x02], value: vec![] }], 12)));
    assert_eq!(read_map(&bytes, 11), Ok((vec![], 12)));
    assert_eq!(read_map(&bytes[..11], 1), Err(DecodeError::Truncated));
    assert_eq!(read_map(&bytes[..6], 1), Err(DecodeError::Truncated));
    let mut out = Vec::new();
    write_prefixed(&mut out, &[0x0a, 0x0b]);
    assert_eq!(out, vec![0x02, 0x0a, 0x0b]);
    assert_eq!(read_prefixed(&out, 0), Ok((1, 3)));
    assert_eq!(read_prefixed(&out[..2], 0), Err(DecodeError::Truncated));
}

#[test]
fn typed_values_are_written_and_read() {
    let out = TxOut { value: 0x0102, script_pubkey: vec![0x51, 0x52] };
    let bytes = encode_txout(&out);
    assert_eq!(bytes, vec![0x02, 0x01, 0, 0, 0, 0, 0, 0, 0x02, 0x51, 0x52]);
    assert_eq!(decode_txout(&bytes), Some(out));
    assert_eq!(decode_txout(&bytes[..10]), None);
    assert_eq!(decode_txout(&[0; 7]), None);
    let stack = vec![vec![0x01], vec![], vec![0x02, 0x03]];
    let bytes = encode_witness(&stack);
    assert_eq!(bytes, vec![0x03, 0x01, 0x01, 0x00, 0x02, 0x02, 0x03]);
    assert_eq!(decode_witness(&bytes), Some(stack));
    assert_eq!(decode_witness(&[0x00]), Some(vec![]));
    assert_eq!(decode_witness(&[]), None);
    assert_eq!(decode_witness(&[0x00, 0x00]), None);
    assert_eq!(decode_witness(&[0x01]), None);
    assert_eq!(encode_sighash(SigHashType::AllPlusAnyoneCanPay), vec![0x81, 0, 0, 0]);
    assert_eq!(decode_sighash(&[0x03, 0, 0, 0]), Some(SigHashType::Single));
    assert_eq!(decode_sighash(&[0x00, 0, 0, 0]), None);
    assert_eq!(decode_sighash(&[0x01, 0, 0, 1]), None);
    assert_eq!(decode_sighash(&[0x01]), None);
    for t in [
        SigHashType::All,
        SigHashType::NoOutputs,
        SigHashType::Single,
        SigHashType::AllPlusAnyoneCanPay,
        SigHashType::NoOutputsPlusAnyoneCanPay,
        SigHashType::SinglePlusAnyoneCanPay,
    ] {
        assert_eq!(sighash_from_u32(sighash_to_u32(t)), Some(t));
    }
    assert_eq!(sighash_to_u32(SigHashType::NoOutputs), 2);
    assert_eq!(sighash_from_u32(0x84), None);
}

#[test]
fn transactions_are_told_from_other_bytes() {
    let unsigned = tiny_tx(&[]);
    let signed = tiny_tx(&[0x51]);
    assert!(check_transaction(&unsigned));
    assert!(check_transaction(&signed));
    assert!(!check_transaction(&unsigned[..unsigned.len() - 1]));
    assert!(!check_transaction(&[]));
    let mut longer = unsigned.clone();
    longer.push(0x00);
    assert!(!check_transaction(&longer));
    assert_eq!(count_unsigned(&unsigned), Ok((1, 2)));
    assert_eq!(count_unsigned(&signed), Err(DecodeError::InvalidTransaction));
    assert_eq!(count_unsigned(&[0x00]), Err(DecodeError::InvalidTransaction));
    assert!(no_signatures(&vec![]));
    assert!(no_signatures(&vec![(0, 0), (0, 0)]));
    assert!(!no_signatures(&vec![(0, 0), (0, 1)]));
    assert!(!no_signatures(&vec![(3, 0)]));
    assert_eq!(counts_of_layout(&vec![(0, 0), (0, 0), (0, 0)], 4), Some((3, 4)));
    assert_eq!(counts_of_layout(&vec![(0, 0), (1, 0)], 4), None);
}

#[test]
fn an_input_takes_one_entry_at_a_time() {
    let mut input = Input::new();
    assert_eq!(input.put(&[], &[0x01]), Err(DecodeError::InvalidKey));
    assert_eq!(input.put(&[IN_REDEEM_SCRIPT], &[0x51]), Ok(()));
    assert_eq!(input.put(&[IN_REDEEM_SCRIPT], &[0x51]), Err(DecodeError::DuplicateKey));
    let mut long_key = vec![IN_PARTIAL_SIG, 0x04];
    long_key.extend_from_slice(&[0x07; 64]);
    assert_eq!(input.put(&long_key, &[0x30]), Ok(()));
    assert_eq!(input.put(&long_key[..65], &[0x30]), Err(DecodeError::InvalidKey));
    assert_eq!(input.put(&[IN_PARTIAL_SIG], &[0x30]), Err(DecodeError::InvalidKey));
    let mut path_key = vec![IN_HD_KEYPATH, 0x02];
    path_key.extend_from_slice(&[0x08; 32]);
    assert_eq!(input.put(&path_key, &[1, 2, 3]), Err(DecodeError::InvalidValue));
    assert_eq!(input.put(&path_key, &[1, 2, 3, 4]), Ok(()));
    assert_eq!(input.put(&path_key, &[1, 2, 3, 4]), Err(DecodeError::DuplicateKey));
    assert_eq!(input.partial_sigs.len(), 1);
    assert_eq!(input.partial_sigs[0].key.len(), 65);
    assert_eq!(input.hd_keypaths[0].value, vec![1, 2, 3, 4]);
    assert_eq!(input.redeem_script, Some(vec![0x51]));
    let entries = input.entries();
    assert_eq!(entries.len(), 3);
    assert_eq!(entries[0].key, long_key);
    assert_eq!(entries[1].key, vec![IN_REDEEM_SCRIPT]);
    assert_eq!(entries[2].key, path_key);
    assert_eq!(Input::from_entries(&entries), Ok(input.copy()));
}

#[test]
fn sections_are_made_of_entries() {
    let entries = vec![
        Entry { key: vec![0x01], value: vec![0x52] },
        Entry { key: vec![0x00], value: vec![0x51] },
        Entry { key: vec![0x10, 0x00], value: vec![] },
    ];
    let output = Output::from_entries(&entries).unwrap();
    assert_eq!(output.redeem_script, Some(vec![0x51]));
    assert_eq!(output.witness_script, Some(vec![0x52]));
    assert_eq!(output.unknown, vec![Entry { key: vec![0x10, 0x00], value: vec![] }]);
    assert_eq!(output.entries()[0], entries[1]);
    assert_eq!(output.entries()[1], entries[0]);
    assert_eq!(output.copy(), output);
    let mut other = Output::new();
    assert_eq!(other.put(&[], &[]), Err(DecodeError::InvalidKey));
    assert_eq!(other.put(&[0x00, 0x00], &[]), Err(DecodeError::InvalidKey));
    let tx = tiny_tx(&[]);
    let entries = vec![
        Entry { key: vec![0x05], value: vec![0x01] },
        Entry { key: vec![GLOBAL_UNSIGNED_TX], value: tx.clone() },
    ];
    let (global, n_in, n_out) = Global::from_entries(&entries).unwrap();
    assert_eq!((n_in, n_out), (1, 2));
    assert_eq!(global.unsigned_tx, tx);
    assert_eq!(global.entries(), vec![entries[1].clone(), entries[0].clone()]);
    assert_eq!(Global::from_entries(&entries[..1].to_vec()), Err(DecodeError::MissingTransaction));
    let empty_key = vec![Entry { key: vec![], value: vec![] }];
    assert_eq!(Global::from_entries(&empty_key), Err(DecodeError::InvalidKey));
}
