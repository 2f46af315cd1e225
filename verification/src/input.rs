//! The section of one input: how it is read from the entries of its map, and
//! the entries it is written as.

use vstd::prelude::*;
use crate::bytes::copy_bytes;
use crate::error::DecodeError;
use crate::fields::{
    add_keyed, add_unknown, check_once, copy_opt, fold_entries, keyed_entries, lemma_fold_concat,
    lemma_fold_one, lemma_fold_step, lemma_inserted_sized, lemma_put_keyed_next,
    lemma_put_unknown_next, lemma_wire_concat, lemma_wire_keyed, lemma_wire_opt,
    lemma_wire_unknown, opt_entry, push_keyed, push_opt, push_unknown, put_keyed, put_once,
    put_unknown,
};
use crate::keyed::{lemma_inserted_all, sorted};
use crate::model::{
    is_key_source, is_pubkey, key_source_values, pubkey_keys, unknown_keys, Input, InputView,
    SigHashType, TxOutView, INPUT_LAST_KNOWN,
};
use crate::tx::{check_transaction, is_transaction};
use crate::values::{
    decode_sighash, decode_txout, decode_witness, encode_sighash, encode_txout, encode_witness,
    lemma_parse_txout_canonical, lemma_parse_witness_canonical, lemma_sighash_round_trip,
    lemma_txout_round_trip, lemma_witness_round_trip, parse_sighash, parse_txout, parse_witness,
    sighash_bytes, txout_bytes, witness_bytes,
};
use crate::wire::{entry_views, wire_entries, Entry};

verus! {

/// The type byte of the previous transaction.
pub const IN_NON_WITNESS_UTXO: u8 = 0x00;

/// The type byte of the previous output.
pub const IN_WITNESS_UTXO: u8 = 0x01;

/// The type byte of a partial signature; the key data is the public key.
pub const IN_PARTIAL_SIG: u8 = 0x02;

/// The type byte of the signature-hash type.
pub const IN_SIGHASH_TYPE: u8 = 0x03;

/// The type byte of the redeem script.
pub const IN_REDEEM_SCRIPT: u8 = 0x04;

/// The type byte of the witness script.
pub const IN_WITNESS_SCRIPT: u8 = 0x05;

/// The type byte of a key path; the key data is the public key.
pub const IN_HD_KEYPATH: u8 = 0x06;

/// The type byte of the final signature script.
pub const IN_FINAL_SCRIPT_SIG: u8 = 0x07;

/// The type byte of the final witness stack.
pub const IN_FINAL_SCRIPT_WITNESS: u8 = 0x08;

/// The bytes, where they are a serialized transaction.
pub open spec fn tx_if_valid(value: Seq<u8>) -> Option<Seq<u8>> {
    if is_transaction(value) {
        Some(value)
    } else {
        None
    }
}

/// The value of the field of a transaction output.
pub open spec fn txout_value(o: Option<TxOutView>) -> Option<Seq<u8>> {
    match o {
        Some(o) => Some(txout_bytes(o)),
        None => None,
    }
}

/// The value of the field of a signature-hash type.
pub open spec fn sighash_value(t: Option<SigHashType>) -> Option<Seq<u8>> {
    match t {
        Some(t) => Some(sighash_bytes(t)),
        None => None,
    }
}

/// The value of the field of a witness stack.
pub open spec fn witness_value(w: Option<Seq<Seq<u8>>>) -> Option<Seq<u8>> {
    match w {
        Some(w) => Some(witness_bytes(w)),
        None => None,
    }
}

/// Reads one entry into an input section. The type byte of the key says which
/// field the entry is; a type byte that the section does not know makes an
/// unknown field.
pub open spec fn input_put(acc: InputView, key: Seq<u8>, value: Seq<u8>) -> Result<
    InputView,
    DecodeError,
> {
    if key.len() == 0 {
        Err(DecodeError::InvalidKey)
    } else if key[0] == IN_NON_WITNESS_UTXO {
        match put_once(
            acc.non_witness_utxo,
            key,
            tx_if_valid(value),
            DecodeError::InvalidTransaction,
        ) {
            Ok(slot) => Ok(InputView { non_witness_utxo: slot, ..acc }),
            Err(e) => Err(e),
        }
    } else if key[0] == IN_WITNESS_UTXO {
        match put_once(acc.witness_utxo, key, parse_txout(value), DecodeError::InvalidValue) {
            Ok(slot) => Ok(InputView { witness_utxo: slot, ..acc }),
            Err(e) => Err(e),
        }
    } else if key[0] == IN_PARTIAL_SIG {
        match put_keyed(acc.partial_sigs, key, value, true) {
            Ok(m) => Ok(InputView { partial_sigs: m, ..acc }),
            Err(e) => Err(e),
        }
    } else if key[0] == IN_SIGHASH_TYPE {
        match put_once(acc.sighash_type, key, parse_sighash(value), DecodeError::InvalidValue) {
            Ok(slot) => Ok(InputView { sighash_type: slot, ..acc }),
            Err(e) => Err(e),
        }
    } else if key[0] == IN_REDEEM_SCRIPT {
        match put_once(acc.redeem_script, key, Some(value), DecodeError::InvalidValue) {
            Ok(slot) => Ok(InputView { redeem_script: slot, ..acc }),
            Err(e) => Err(e),
        }
    } else if key[0] == IN_WITNESS_SCRIPT {
        match put_once(acc.witness_script, key, Some(value), DecodeError::InvalidValue) {
            Ok(slot) => Ok(InputView { witness_script: slot, ..acc }),
            Err(e) => Err(e),
        }
    } else if key[0] == IN_HD_KEYPATH {
        match put_keyed(acc.hd_keypaths, key, value, is_key_source(value)) {
            Ok(m) => Ok(InputView { hd_keypaths: m, ..acc }),
            Err(e) => Err(e),
        }
    } else if key[0] == IN_FINAL_SCRIPT_SIG {
        match put_once(acc.final_script_sig, key, Some(value), DecodeError::InvalidValue) {
            Ok(slot) => Ok(InputView { final_script_sig: slot, ..acc }),
            Err(e) => Err(e),
        }
    } else if key[0] == IN_FINAL_SCRIPT_WITNESS {
        match put_once(
            acc.final_script_witness,
            key,
            parse_witness(value),
            DecodeError::InvalidValue,
        ) {
            Ok(slot) => Ok(InputView { final_script_witness: slot, ..acc }),
            Err(e) => Err(e),
        }
    } else {
        match put_unknown(acc.unknown, key, value) {
            Ok(m) => Ok(InputView { unknown: m, ..acc }),
            Err(e) => Err(e),
        }
    }
}

/// `input_put` as a rule for `fold_entries`.
pub open spec fn input_rule() -> spec_fn(InputView, Seq<u8>, Seq<u8>) -> Result<
    InputView,
    DecodeError,
> {
    |acc: InputView, key: Seq<u8>, value: Seq<u8>| input_put(acc, key, value)
}

/// The input section that the entries of a map make.
pub open spec fn input_from(entries: Seq<(Seq<u8>, Seq<u8>)>) -> Result<InputView, DecodeError> {
    fold_entries(input_rule(), InputView::empty(), entries)
}

/// The entries of the `k`-th field of an input section, in the order of the
/// type bytes, the unknown fields last.
pub open spec fn input_segment(s: InputView, k: int) -> Seq<(Seq<u8>, Seq<u8>)> {
    if k == 0 {
        opt_entry(IN_NON_WITNESS_UTXO, s.non_witness_utxo)
    } else if k == 1 {
        opt_entry(IN_WITNESS_UTXO, txout_value(s.witness_utxo))
    } else if k == 2 {
        keyed_entries(IN_PARTIAL_SIG, s.partial_sigs)
    } else if k == 3 {
        opt_entry(IN_SIGHASH_TYPE, sighash_value(s.sighash_type))
    } else if k == 4 {
        opt_entry(IN_REDEEM_SCRIPT, s.redeem_script)
    } else if k == 5 {
        opt_entry(IN_WITNESS_SCRIPT, s.witness_script)
    } else if k == 6 {
        keyed_entries(IN_HD_KEYPATH, s.hd_keypaths)
    } else if k == 7 {
        opt_entry(IN_FINAL_SCRIPT_SIG, s.final_script_sig)
    } else if k == 8 {
        opt_entry(IN_FINAL_SCRIPT_WITNESS, witness_value(s.final_script_witness))
    } else {
        s.unknown
    }
}

/// The entries that an input section is written as: its fields in the order
/// of their type bytes, each keyed collection in the order of its keys, the
/// fields of unknown type last.
pub open spec fn input_entries(s: InputView) -> Seq<(Seq<u8>, Seq<u8>)> {
    input_segment(s, 0) + input_segment(s, 1) + input_segment(s, 2) + input_segment(s, 3)
        + input_segment(s, 4) + input_segment(s, 5) + input_segment(s, 6) + input_segment(s, 7)
        + input_segment(s, 8) + input_segment(s, 9)
}

/// The entries of the first `k` fields.
pub open spec fn input_entries_upto(s: InputView, k: int) -> Seq<(Seq<u8>, Seq<u8>)>
    decreases k,
{
    if k <= 0 {
        Seq::empty()
    } else {
        input_entries_upto(s, k - 1) + input_segment(s, k - 1)
    }
}

/// The section with only its first `k` fields.
pub open spec fn input_upto(s: InputView, k: int) -> InputView {
    InputView {
        non_witness_utxo: if k > 0 {
            s.non_witness_utxo
        } else {
            None
        },
        witness_utxo: if k > 1 {
            s.witness_utxo
        } else {
            None
        },
        partial_sigs: if k > 2 {
            s.partial_sigs
        } else {
            Seq::empty()
        },
        sighash_type: if k > 3 {
            s.sighash_type
        } else {
            None
        },
        redeem_script: if k > 4 {
            s.redeem_script
        } else {
            None
        },
        witness_script: if k > 5 {
            s.witness_script
        } else {
            None
        },
        hd_keypaths: if k > 6 {
            s.hd_keypaths
        } else {
            Seq::empty()
        },
        final_script_sig: if k > 7 {
            s.final_script_sig
        } else {
            None
        },
        final_script_witness: if k > 8 {
            s.final_script_witness
        } else {
            None
        },
        unknown: if k > 9 {
            s.unknown
        } else {
            Seq::empty()
        },
    }
}

proof fn lemma_input_fold_sigs(acc: InputView, sigs: Seq<(Seq<u8>, Seq<u8>)>, j: int)
    requires
        sorted(sigs),
        pubkey_keys(sigs),
        0 <= j <= sigs.len(),
        acc.partial_sigs == sigs.take(j),
    ensures
        fold_entries(input_rule(), acc, keyed_entries(IN_PARTIAL_SIG, sigs).skip(j)) == Ok::<
            InputView,
            DecodeError,
        >(InputView { partial_sigs: sigs, ..acc }),
    decreases sigs.len() - j,
{
    let all = keyed_entries(IN_PARTIAL_SIG, sigs);
    if j == sigs.len() {
        assert(all.skip(j) =~= Seq::empty());
        assert(sigs.take(j) =~= sigs);
    } else {
        lemma_fold_step(input_rule(), acc, all, j);
        lemma_put_keyed_next(sigs, IN_PARTIAL_SIG, j);
        let next = InputView { partial_sigs: sigs.take(j + 1), ..acc };
        assert(input_put(acc, all[j].0, all[j].1) == Ok::<InputView, DecodeError>(next));
        lemma_input_fold_sigs(next, sigs, j + 1);
    }
}

proof fn lemma_input_fold_paths(acc: InputView, paths: Seq<(Seq<u8>, Seq<u8>)>, j: int)
    requires
        sorted(paths),
        pubkey_keys(paths),
        key_source_values(paths),
        0 <= j <= paths.len(),
        acc.hd_keypaths == paths.take(j),
    ensures
        fold_entries(input_rule(), acc, keyed_entries(IN_HD_KEYPATH, paths).skip(j)) == Ok::<
            InputView,
            DecodeError,
        >(InputView { hd_keypaths: paths, ..acc }),
    decreases paths.len() - j,
{
    let all = keyed_entries(IN_HD_KEYPATH, paths);
    if j == paths.len() {
        assert(all.skip(j) =~= Seq::empty());
        assert(paths.take(j) =~= paths);
    } else {
        lemma_fold_step(input_rule(), acc, all, j);
        lemma_put_keyed_next(paths, IN_HD_KEYPATH, j);
        assert(is_key_source(paths[j].1));
        let next = InputView { hd_keypaths: paths.take(j + 1), ..acc };
        assert(input_put(acc, all[j].0, all[j].1) == Ok::<InputView, DecodeError>(next));
        lemma_input_fold_paths(next, paths, j + 1);
    }
}

proof fn lemma_input_fold_unknown(acc: InputView, unknown: Seq<(Seq<u8>, Seq<u8>)>, j: int)
    requires
        sorted(unknown),
        unknown_keys(unknown, INPUT_LAST_KNOWN),
        0 <= j <= unknown.len(),
        acc.unknown == unknown.take(j),
    ensures
        fold_entries(input_rule(), acc, unknown.skip(j)) == Ok::<InputView, DecodeError>(
            InputView { unknown: unknown, ..acc },
        ),
    decreases unknown.len() - j,
{
    if j == unknown.len() {
        assert(unknown.skip(j) =~= Seq::empty());
        assert(unknown.take(j) =~= unknown);
    } else {
        lemma_fold_step(input_rule(), acc, unknown, j);
        lemma_put_unknown_next(unknown, j);
        assert(unknown[j].0.len() > 0 && unknown[j].0[0] > INPUT_LAST_KNOWN);
        let next = InputView { unknown: unknown.take(j + 1), ..acc };
        assert(input_put(acc, unknown[j].0, unknown[j].1) == Ok::<InputView, DecodeError>(next));
        lemma_input_fold_unknown(next, unknown, j + 1);
    }
}

proof fn lemma_input_fold_opt(acc: InputView, kind: u8, value: Option<Seq<u8>>)
    ensures
        fold_entries(input_rule(), acc, opt_entry(kind, value)) == match value {
            Some(v) => input_put(acc, seq![kind], v),
            None => Ok(acc),
        },
{
    match value {
        Some(v) => {
            lemma_fold_one(input_rule(), acc, (seq![kind], v));
        },
        None => {},
    }
}

proof fn lemma_input_segment(s: InputView, k: int)
    requires
        s.wf(),
        0 <= k < 10,
    ensures
        fold_entries(input_rule(), input_upto(s, k), input_segment(s, k)) == Ok::<
            InputView,
            DecodeError,
        >(input_upto(s, k + 1)),
{
    let acc = input_upto(s, k);
    if k == 0 {
        lemma_input_fold_opt(acc, IN_NON_WITNESS_UTXO, s.non_witness_utxo);
    } else if k == 1 {
        lemma_input_fold_opt(acc, IN_WITNESS_UTXO, txout_value(s.witness_utxo));
        if let Some(o) = s.witness_utxo {
            lemma_txout_round_trip(o);
        }
    } else if k == 2 {
        assert(s.partial_sigs.take(0) =~= Seq::empty());
        assert(keyed_entries(IN_PARTIAL_SIG, s.partial_sigs).skip(0) =~= keyed_entries(
            IN_PARTIAL_SIG,
            s.partial_sigs,
        ));
        lemma_input_fold_sigs(acc, s.partial_sigs, 0);
    } else if k == 3 {
        lemma_input_fold_opt(acc, IN_SIGHASH_TYPE, sighash_value(s.sighash_type));
        if let Some(t) = s.sighash_type {
            lemma_sighash_round_trip(t);
        }
    } else if k == 4 {
        lemma_input_fold_opt(acc, IN_REDEEM_SCRIPT, s.redeem_script);
    } else if k == 5 {
        lemma_input_fold_opt(acc, IN_WITNESS_SCRIPT, s.witness_script);
    } else if k == 6 {
        assert(s.hd_keypaths.take(0) =~= Seq::empty());
        assert(keyed_entries(IN_HD_KEYPATH, s.hd_keypaths).skip(0) =~= keyed_entries(
            IN_HD_KEYPATH,
            s.hd_keypaths,
        ));
        lemma_input_fold_paths(acc, s.hd_keypaths, 0);
    } else if k == 7 {
        lemma_input_fold_opt(acc, IN_FINAL_SCRIPT_SIG, s.final_script_sig);
    } else if k == 8 {
        lemma_input_fold_opt(acc, IN_FINAL_SCRIPT_WITNESS, witness_value(s.final_script_witness));
        if let Some(w) = s.final_script_witness {
            lemma_witness_round_trip(w);
        }
    } else {
        assert(s.unknown.take(0) =~= Seq::empty());
        assert(s.unknown.skip(0) =~= s.unknown);
        lemma_input_fold_unknown(acc, s.unknown, 0);
    }
}

proof fn lemma_input_prefix(s: InputView, k: int)
    requires
        s.wf(),
        0 <= k <= 10,
    ensures
        fold_entries(input_rule(), InputView::empty(), input_entries_upto(s, k)) == Ok::<
            InputView,
            DecodeError,
        >(input_upto(s, k)),
    decreases k,
{
    if k > 0 {
        lemma_input_prefix(s, k - 1);
        lemma_fold_concat(
            input_rule(),
            InputView::empty(),
            input_entries_upto(s, k - 1),
            input_segment(s, k - 1),
        );
        lemma_input_segment(s, k - 1);
    }
}

/// Reading the entries that a well-formed input section is written as gives
/// the section back.
pub proof fn lemma_input_round_trip(s: InputView)
    requires
        s.wf(),
    ensures
        input_from(input_entries(s)) == Ok::<InputView, DecodeError>(s),
{
    lemma_input_prefix(s, 10);
    reveal_with_fuel(input_entries_upto, 11);
    assert(input_entries_upto(s, 10) =~= input_entries(s));
}

proof fn lemma_input_segment_fits(s: InputView, k: int)
    requires
        s.wf(),
        0 <= k < 10,
    ensures
        wire_entries(input_segment(s, k)),
{
    if k == 0 {
        lemma_wire_opt(IN_NON_WITNESS_UTXO, s.non_witness_utxo);
    } else if k == 1 {
        lemma_wire_opt(IN_WITNESS_UTXO, txout_value(s.witness_utxo));
    } else if k == 2 {
        lemma_wire_keyed(IN_PARTIAL_SIG, s.partial_sigs);
    } else if k == 3 {
        if let Some(t) = s.sighash_type {
            lemma_sighash_round_trip(t);
        }
        lemma_wire_opt(IN_SIGHASH_TYPE, sighash_value(s.sighash_type));
    } else if k == 4 {
        lemma_wire_opt(IN_REDEEM_SCRIPT, s.redeem_script);
    } else if k == 5 {
        lemma_wire_opt(IN_WITNESS_SCRIPT, s.witness_script);
    } else if k == 6 {
        lemma_wire_keyed(IN_HD_KEYPATH, s.hd_keypaths);
    } else if k == 7 {
        lemma_wire_opt(IN_FINAL_SCRIPT_SIG, s.final_script_sig);
    } else if k == 8 {
        lemma_wire_opt(IN_FINAL_SCRIPT_WITNESS, witness_value(s.final_script_witness));
    } else {
        lemma_wire_unknown(s.unknown, INPUT_LAST_KNOWN);
    }
}

proof fn lemma_input_prefix_fits(s: InputView, k: int)
    requires
        s.wf(),
        0 <= k <= 10,
    ensures
        wire_entries(input_entries_upto(s, k)),
    decreases k,
{
    if k > 0 {
        lemma_input_prefix_fits(s, k - 1);
        lemma_input_segment_fits(s, k - 1);
        lemma_wire_concat(input_entries_upto(s, k - 1), input_segment(s, k - 1));
    }
}

/// The wire can hold the entries that a well-formed input section is written
/// as.
pub proof fn lemma_input_entries_fit(s: InputView)
    requires
        s.wf(),
    ensures
        wire_entries(input_entries(s)),
{
    lemma_input_prefix_fits(s, 10);
    reveal_with_fuel(input_entries_upto, 11);
    assert(input_entries_upto(s, 10) =~= input_entries(s));
}

impl Input {
    /// Reads one entry into the section.
    pub fn put(&mut self, key: &[u8], value: &[u8]) -> (r: Result<(), DecodeError>)
        requires
            old(self)@.wf(),
        ensures
            match r {
                Ok(_) => input_put(old(self)@, key@, value@) == Ok::<InputView, DecodeError>(
                    final(self)@,
                ) && final(self)@.wf(),
                Err(e) => input_put(old(self)@, key@, value@) == Err::<InputView, DecodeError>(e)
                    && final(self)@ == old(self)@,
            },
    {
        // The lengths are machine numbers, so a size prefix can hold them.
        let key_len: usize = key.len();
        let _value_len: usize = value.len();
        if key_len == 0 {
            return Err(DecodeError::InvalidKey);
        }
        let kind: u8 = key[0];
        if kind == IN_NON_WITNESS_UTXO {
            if let Some(e) = check_once(self.non_witness_utxo.is_some(), key) {
                return Err(e);
            }
            if !check_transaction(value) {
                return Err(DecodeError::InvalidTransaction);
            }
            self.non_witness_utxo = Some(copy_bytes(value));
            Ok(())
        } else if kind == IN_WITNESS_UTXO {
            if let Some(e) = check_once(self.witness_utxo.is_some(), key) {
                return Err(e);
            }
            match decode_txout(value) {
                None => Err(DecodeError::InvalidValue),
                Some(o) => {
                    proof {
                        lemma_parse_txout_canonical(value@);
                    }
                    self.witness_utxo = Some(o);
                    Ok(())
                },
            }
        } else if kind == IN_PARTIAL_SIG {
            let ghost before = self@.partial_sigs;
            match add_keyed(&mut self.partial_sigs, key, value, true) {
                Err(e) => Err(e),
                Ok(_) => {
                    proof {
                        lemma_inserted_all(
                            before,
                            key@.skip(1),
                            value@,
                            |e: (Seq<u8>, Seq<u8>)| is_pubkey(e.0),
                        );
                        lemma_inserted_sized(before, key@.skip(1), value@);
                    }
                    Ok(())
                },
            }
        } else if kind == IN_SIGHASH_TYPE {
            if let Some(e) = check_once(self.sighash_type.is_some(), key) {
                return Err(e);
            }
            match decode_sighash(value) {
                None => Err(DecodeError::InvalidValue),
                Some(t) => {
                    self.sighash_type = Some(t);
                    Ok(())
                },
            }
        } else if kind == IN_REDEEM_SCRIPT {
            if let Some(e) = check_once(self.redeem_script.is_some(), key) {
                return Err(e);
            }
            self.redeem_script = Some(copy_bytes(value));
            Ok(())
        } else if kind == IN_WITNESS_SCRIPT {
            if let Some(e) = check_once(self.witness_script.is_some(), key) {
                return Err(e);
            }
            self.witness_script = Some(copy_bytes(value));
            Ok(())
        } else if kind == IN_HD_KEYPATH {
            let ghost before = self@.hd_keypaths;
            let value_ok: bool = value.len() >= 4 && value.len() % 4 == 0;
            match add_keyed(&mut self.hd_keypaths, key, value, value_ok) {
                Err(e) => Err(e),
                Ok(_) => {
                    proof {
                        lemma_inserted_all(
                            before,
                            key@.skip(1),
                            value@,
                            |e: (Seq<u8>, Seq<u8>)| is_pubkey(e.0),
                        );
                        lemma_inserted_all(
                            before,
                            key@.skip(1),
                            value@,
                            |e: (Seq<u8>, Seq<u8>)| is_key_source(e.1),
                        );
                        lemma_inserted_sized(before, key@.skip(1), value@);
                    }
                    Ok(())
                },
            }
        } else if kind == IN_FINAL_SCRIPT_SIG {
            if let Some(e) = check_once(self.final_script_sig.is_some(), key) {
                return Err(e);
            }
            self.final_script_sig = Some(copy_bytes(value));
            Ok(())
        } else if kind == IN_FINAL_SCRIPT_WITNESS {
            if let Some(e) = check_once(self.final_script_witness.is_some(), key) {
                return Err(e);
            }
            match decode_witness(value) {
                None => Err(DecodeError::InvalidValue),
                Some(w) => {
                    proof {
                        lemma_parse_witness_canonical(value@);
                    }
                    self.final_script_witness = Some(w);
                    Ok(())
                },
            }
        } else {
            let ghost before = self@.unknown;
            match add_unknown(&mut self.unknown, key, value) {
                Err(e) => Err(e),
                Ok(_) => {
                    proof {
                        lemma_inserted_all(
                            before,
                            key@,
                            value@,
                            |e: (Seq<u8>, Seq<u8>)| e.0.len() > 0 && e.0[0] > INPUT_LAST_KNOWN,
                        );
                        lemma_inserted_sized(before, key@, value@);
                    }
                    Ok(())
                },
            }
        }
    }

    /// Makes an input section of the entries of its map.
    pub fn from_entries(entries: &Vec<Entry>) -> (r: Result<Input, DecodeError>)
        ensures
            match r {
                Ok(s) => input_from(entry_views(entries@)) == Ok::<InputView, DecodeError>(s@)
                    && s@.wf(),
                Err(e) => input_from(entry_views(entries@)) == Err::<InputView, DecodeError>(e),
            },
    {
        let ghost all = entry_views(entries@);
        let mut s = Input::new();
        let mut i: usize = 0;
        proof {
            assert(all.skip(0) =~= all);
        }
        while i < entries.len()
            invariant
                i <= entries.len(),
                all == entry_views(entries@),
                s@.wf(),
                input_from(all) == fold_entries(input_rule(), s@, all.skip(i as int)),
            decreases entries.len() - i,
        {
            proof {
                lemma_fold_step(input_rule(), s@, all, i as int);
            }
            match s.put(&entries[i].key, &entries[i].value) {
                Err(e) => {
                    return Err(e);
                },
                Ok(_) => {},
            }
            i += 1;
        }
        proof {
            assert(all.skip(i as int) =~= Seq::empty());
        }
        Ok(s)
    }

    /// The entries that the section is written as.
    pub fn entries(&self) -> (r: Vec<Entry>)
        ensures
            entry_views(r@) == input_entries(self@),
    {
        let mut out: Vec<Entry> = Vec::new();
        proof {
            assert(entry_views(out@) =~= Seq::empty());
        }
        push_opt(&mut out, IN_NON_WITNESS_UTXO, copy_opt(&self.non_witness_utxo));
        let utxo: Option<Vec<u8>> = match &self.witness_utxo {
            Some(o) => Some(encode_txout(o)),
            None => None,
        };
        push_opt(&mut out, IN_WITNESS_UTXO, utxo);
        push_keyed(&mut out, IN_PARTIAL_SIG, &self.partial_sigs);
        let sighash: Option<Vec<u8>> = match self.sighash_type {
            Some(t) => Some(encode_sighash(t)),
            None => None,
        };
        push_opt(&mut out, IN_SIGHASH_TYPE, sighash);
        push_opt(&mut out, IN_REDEEM_SCRIPT, copy_opt(&self.redeem_script));
        push_opt(&mut out, IN_WITNESS_SCRIPT, copy_opt(&self.witness_script));
        push_keyed(&mut out, IN_HD_KEYPATH, &self.hd_keypaths);
        push_opt(&mut out, IN_FINAL_SCRIPT_SIG, copy_opt(&self.final_script_sig));
        let witness: Option<Vec<u8>> = match &self.final_script_witness {
            Some(w) => Some(encode_witness(w)),
            None => None,
        };
        push_opt(&mut out, IN_FINAL_SCRIPT_WITNESS, witness);
        push_unknown(&mut out, &self.unknown);
        proof {
            assert(entry_views(out@) =~= input_entries(self@));
        }
        out
    }
}

} // verus!
