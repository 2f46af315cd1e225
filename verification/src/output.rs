//! The section of one output: how it is read from the entries of its map, and
//! the entries it is written as.

use vstd::prelude::*;
use crate::bytes::copy_bytes;
use crate::error::DecodeError;
use crate::fields::{
    add_keyed, add_unknown, check_once, copy_opt, fold_entries, keyed_entries, lemma_fold_concat,
    lemma_fold_one, lemma_fold_step, lemma_inserted_sized, lemma_put_keyed_next,
    lemma_put_unknown_next, lemma_wire_concat, lemma_wire_keyed, lemma_wire_opt,
    lemma_wire_unknown, opt_entry, push_keyed, push_opt, push_unknown, put_keyed, put_once,
    put_unknown,
};
use crate::keyed::{lemma_inserted_all, sorted};
use crate::model::{
    is_key_source, is_pubkey, key_source_values, pubkey_keys, unknown_keys, Output, OutputView,
    OUTPUT_LAST_KNOWN,
};
use crate::wire::{entry_views, wire_entries, Entry};

verus! {

/// The type byte of the redeem script.
pub const OUT_REDEEM_SCRIPT: u8 = 0x00;

/// The type byte of the witness script.
pub const OUT_WITNESS_SCRIPT: u8 = 0x01;

/// The type byte of a key path; the key data is the public key.
pub const OUT_HD_KEYPATH: u8 = 0x02;

/// Reads one entry into an output section. The type byte of the key says
/// which field the entry is; a type byte that the section does not know makes
/// an unknown field.
pub open spec fn output_put(acc: OutputView, key: Seq<u8>, value: Seq<u8>) -> Result<
    OutputView,
    DecodeError,
> {
    if key.len() == 0 {
        Err(DecodeError::InvalidKey)
    } else if key[0] == OUT_REDEEM_SCRIPT {
        match put_once(acc.redeem_script, key, Some(value), DecodeError::InvalidValue) {
            Ok(slot) => Ok(OutputView { redeem_script: slot, ..acc }),
            Err(e) => Err(e),
        }
    } else if key[0] == OUT_WITNESS_SCRIPT {
        match put_once(acc.witness_script, key, Some(value), DecodeError::InvalidValue) {
            Ok(slot) => Ok(OutputView { witness_script: slot, ..acc }),
            Err(e) => Err(e),
        }
    } else if key[0] == OUT_HD_KEYPATH {
        match put_keyed(acc.hd_keypaths, key, value, is_key_source(value)) {
            Ok(m) => Ok(OutputView { hd_keypaths: m, ..acc }),
            Err(e) => Err(e),
        }
    } else {
        match put_unknown(acc.unknown, key, value) {
            Ok(m) => Ok(OutputView { unknown: m, ..acc }),
            Err(e) => Err(e),
        }
    }
}

/// `output_put` as a rule for `fold_entries`.
pub open spec fn output_rule() -> spec_fn(OutputView, Seq<u8>, Seq<u8>) -> Result<
    OutputView,
    DecodeError,
> {
    |acc: OutputView, key: Seq<u8>, value: Seq<u8>| output_put(acc, key, value)
}

/// The output section that the entries of a map make.
pub open spec fn output_from(entries: Seq<(Seq<u8>, Seq<u8>)>) -> Result<OutputView, DecodeError> {
    fold_entries(output_rule(), OutputView::empty(), entries)
}

/// The entries that an output section is written as: its fields in the order
/// of their type bytes, the key paths in the order of their keys, the fields
/// of unknown type last.
pub open spec fn output_entries(s: OutputView) -> Seq<(Seq<u8>, Seq<u8>)> {
    opt_entry(OUT_REDEEM_SCRIPT, s.redeem_script) + opt_entry(OUT_WITNESS_SCRIPT, s.witness_script)
        + keyed_entries(OUT_HD_KEYPATH, s.hd_keypaths) + s.unknown
}

/// The wire can hold the entries that a well-formed output section is
/// written as.
pub proof fn lemma_output_entries_fit(s: OutputView)
    requires
        s.wf(),
    ensures
        wire_entries(output_entries(s)),
{
    let e1 = opt_entry(OUT_REDEEM_SCRIPT, s.redeem_script);
    let seg2 = opt_entry(OUT_WITNESS_SCRIPT, s.witness_script);
    let seg3 = keyed_entries(OUT_HD_KEYPATH, s.hd_keypaths);
    lemma_wire_opt(OUT_REDEEM_SCRIPT, s.redeem_script);
    lemma_wire_opt(OUT_WITNESS_SCRIPT, s.witness_script);
    lemma_wire_keyed(OUT_HD_KEYPATH, s.hd_keypaths);
    lemma_wire_unknown(s.unknown, OUTPUT_LAST_KNOWN);
    lemma_wire_concat(e1, seg2);
    lemma_wire_concat(e1 + seg2, seg3);
    lemma_wire_concat(e1 + seg2 + seg3, s.unknown);
}

proof fn lemma_output_fold_paths(acc: OutputView, paths: Seq<(Seq<u8>, Seq<u8>)>, j: int)
    requires
        sorted(paths),
        pubkey_keys(paths),
        key_source_values(paths),
        0 <= j <= paths.len(),
        acc.hd_keypaths == paths.take(j),
    ensures
        fold_entries(output_rule(), acc, keyed_entries(OUT_HD_KEYPATH, paths).skip(j)) == Ok::<
            OutputView,
            DecodeError,
        >(OutputView { hd_keypaths: paths, ..acc }),
    decreases paths.len() - j,
{
    let all = keyed_entries(OUT_HD_KEYPATH, paths);
    if j == paths.len() {
        assert(all.skip(j) =~= Seq::empty());
        assert(paths.take(j) =~= paths);
    } else {
        lemma_fold_step(output_rule(), acc, all, j);
        lemma_put_keyed_next(paths, OUT_HD_KEYPATH, j);
        assert(is_key_source(paths[j].1));
        let next = OutputView { hd_keypaths: paths.take(j + 1), ..acc };
        assert(output_put(acc, all[j].0, all[j].1) == Ok::<OutputView, DecodeError>(next));
        lemma_output_fold_paths(next, paths, j + 1);
    }
}

proof fn lemma_output_fold_unknown(acc: OutputView, unknown: Seq<(Seq<u8>, Seq<u8>)>, j: int)
    requires
        sorted(unknown),
        unknown_keys(unknown, OUTPUT_LAST_KNOWN),
        0 <= j <= unknown.len(),
        acc.unknown == unknown.take(j),
    ensures
        fold_entries(output_rule(), acc, unknown.skip(j)) == Ok::<OutputView, DecodeError>(
            OutputView { unknown: unknown, ..acc },
        ),
    decreases unknown.len() - j,
{
    if j == unknown.len() {
        assert(unknown.skip(j) =~= Seq::empty());
        assert(unknown.take(j) =~= unknown);
    } else {
        lemma_fold_step(output_rule(), acc, unknown, j);
        lemma_put_unknown_next(unknown, j);
        assert(unknown[j].0.len() > 0 && unknown[j].0[0] > OUTPUT_LAST_KNOWN);
        let next = OutputView { unknown: unknown.take(j + 1), ..acc };
        assert(output_put(acc, unknown[j].0, unknown[j].1) == Ok::<OutputView, DecodeError>(next));
        lemma_output_fold_unknown(next, unknown, j + 1);
    }
}

proof fn lemma_output_fold_opt(acc: OutputView, kind: u8, value: Option<Seq<u8>>)
    ensures
        fold_entries(output_rule(), acc, opt_entry(kind, value)) == match value {
            Some(v) => output_put(acc, seq![kind], v),
            None => Ok(acc),
        },
{
    match value {
        Some(v) => {
            lemma_fold_one(output_rule(), acc, (seq![kind], v));
        },
        None => {},
    }
}

/// Reading the entries that a well-formed output section is written as gives
/// the section back.
pub proof fn lemma_output_round_trip(s: OutputView)
    requires
        s.wf(),
    ensures
        output_from(output_entries(s)) == Ok::<OutputView, DecodeError>(s),
{
    let s0 = OutputView::empty();
    let s1 = OutputView { redeem_script: s.redeem_script, ..s0 };
    let s2 = OutputView { witness_script: s.witness_script, ..s1 };
    let s3 = OutputView { hd_keypaths: s.hd_keypaths, ..s2 };
    let e1 = opt_entry(OUT_REDEEM_SCRIPT, s.redeem_script);
    let seg2 = opt_entry(OUT_WITNESS_SCRIPT, s.witness_script);
    let seg3 = keyed_entries(OUT_HD_KEYPATH, s.hd_keypaths);
    lemma_output_fold_opt(s0, OUT_REDEEM_SCRIPT, s.redeem_script);
    assert(fold_entries(output_rule(), s0, e1) == Ok::<OutputView, DecodeError>(s1));
    lemma_fold_concat(output_rule(), s0, e1, seg2);
    lemma_output_fold_opt(s1, OUT_WITNESS_SCRIPT, s.witness_script);
    assert(fold_entries(output_rule(), s0, e1 + seg2) == Ok::<OutputView, DecodeError>(s2));
    lemma_fold_concat(output_rule(), s0, e1 + seg2, seg3);
    assert(s.hd_keypaths.take(0) =~= Seq::empty());
    assert(seg3.skip(0) =~= seg3);
    lemma_output_fold_paths(s2, s.hd_keypaths, 0);
    assert(fold_entries(output_rule(), s0, e1 + seg2 + seg3) == Ok::<OutputView, DecodeError>(s3));
    lemma_fold_concat(output_rule(), s0, e1 + seg2 + seg3, s.unknown);
    assert(s.unknown.take(0) =~= Seq::empty());
    assert(s.unknown.skip(0) =~= s.unknown);
    lemma_output_fold_unknown(s3, s.unknown, 0);
}

impl Output {
    /// Reads one entry into the section.
    pub fn put(&mut self, key: &[u8], value: &[u8]) -> (r: Result<(), DecodeError>)
        requires
            old(self)@.wf(),
        ensures
            match r {
                Ok(_) => output_put(old(self)@, key@, value@) == Ok::<OutputView, DecodeError>(
                    final(self)@,
                ) && final(self)@.wf(),
                Err(e) => output_put(old(self)@, key@, value@) == Err::<OutputView, DecodeError>(e)
                    && final(self)@ == old(self)@,
            },
    {
        // The lengths are machine numbers, so a size prefix can hold them.
        let key_len: usize = key.len();
        let _value_len: usize = value.len();
        if key_len == 0 {
            return Err(DecodeError::InvalidKey);
        }
        let kind: u8 = key[0];
        if kind == OUT_REDEEM_SCRIPT {
            if let Some(e) = check_once(self.redeem_script.is_some(), key) {
                return Err(e);
            }
            self.redeem_script = Some(copy_bytes(value));
            Ok(())
        } else if kind == OUT_WITNESS_SCRIPT {
            if let Some(e) = check_once(self.witness_script.is_some(), key) {
                return Err(e);
            }
            self.witness_script = Some(copy_bytes(value));
            Ok(())
        } else if kind == OUT_HD_KEYPATH {
            let ghost before = self@.hd_keypaths;
            let value_ok: bool = value.len() >= 4 && value.len() % 4 == 0;
            match add_keyed(&mut self.hd_keypaths, key, value, value_ok) {
                Err(e) => Err(e),
                Ok(_) => {
                    proof {
                        lemma_inserted_all(
                            before,
                            key@.skip(1),
                            value@,
                            |e: (Seq<u8>, Seq<u8>)| is_pubkey(e.0),
                        );
                        lemma_inserted_all(
                            before,
                            key@.skip(1),
                            value@,
                            |e: (Seq<u8>, Seq<u8>)| is_key_source(e.1),
                        );
                        lemma_inserted_sized(before, key@.skip(1), value@);
                    }
                    Ok(())
                },
            }
        } else {
            let ghost before = self@.unknown;
            match add_unknown(&mut self.unknown, key, value) {
                Err(e) => Err(e),
                Ok(_) => {
                    proof {
                        lemma_inserted_all(
                            before,
                            key@,
                            value@,
                            |e: (Seq<u8>, Seq<u8>)| e.0.len() > 0 && e.0[0] > OUTPUT_LAST_KNOWN,
                        );
                        lemma_inserted_sized(before, key@, value@);
                    }
                    Ok(())
                },
            }
        }
    }

    /// Makes an output section of the entries of its map.
    pub fn from_entries(entries: &Vec<Entry>) -> (r: Result<Output, DecodeError>)
        ensures
            match r {
                Ok(s) => output_from(entry_views(entries@)) == Ok::<OutputView, DecodeError>(s@)
                    && s@.wf(),
                Err(e) => output_from(entry_views(entries@)) == Err::<OutputView, DecodeError>(e),
            },
    {
        let ghost all = entry_views(entries@);
        let mut s = Output::new();
        let mut i: usize = 0;
        proof {
            assert(all.skip(0) =~= all);
        }
        while i < entries.len()
            invariant
                i <= entries.len(),
                all == entry_views(entries@),
                s@.wf(),
                output_from(all) == fold_entries(output_rule(), s@, all.skip(i as int)),
            decreases entries.len() - i,
        {
            proof {
                lemma_fold_step(output_rule(), s@, all, i as int);
            }
            match s.put(&entries[i].key, &entries[i].value) {
                Err(e) => {
                    return Err(e);
                },
                Ok(_) => {},
            }
            i += 1;
        }
        proof {
            assert(all.skip(i as int) =~= Seq::empty());
        }
        Ok(s)
    }

    /// The entries that the section is written as.
    pub fn entries(&self) -> (r: Vec<Entry>)
        ensures
            entry_views(r@) == output_entries(self@),
    {
        let mut out: Vec<Entry> = Vec::new();
        proof {
            assert(entry_views(out@) =~= Seq::empty());
        }
        push_opt(&mut out, OUT_REDEEM_SCRIPT, copy_opt(&self.redeem_script));
        push_opt(&mut out, OUT_WITNESS_SCRIPT, copy_opt(&self.witness_script));
        push_keyed(&mut out, OUT_HD_KEYPATH, &self.hd_keypaths);
        push_unknown(&mut out, &self.unknown);
        proof {
            assert(entry_views(out@) =~= output_entries(self@));
        }
        out
    }
}

} // verus!
