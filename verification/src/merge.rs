//! Combining containers that describe the same unsigned transaction into one
//! that holds the signing material of all of them.
//!
//! The policy is strict. A field that occurs at most once is taken from the
//! side that has it, and two sides that both have it must agree. A keyed
//! collection becomes the union of both sides, and a key that both hold must
//! have one value. The unknown fields of a section, the global one included,
//! are such a collection. Nothing is ever picked from two different values.

use vstd::prelude::*;
use crate::bytes::{bytes_eq, copy_bytes};
use crate::error::{Field, MergeError, Section};
use crate::fields::{copy_opt, lemma_united_sized};
use crate::keyed::{
    copy_entries, disagree, lemma_united_all, lemma_united_commutes, lemma_united_conflict, unite,
    united,
};
use crate::model::{
    input_views, is_key_source, is_pubkey, opt_bytes, output_views, stack_view, Global, GlobalView,
    Input, InputView, Output, OutputView, Psbt, PsbtView, SigHashType, TxOut, TxOutView,
    GLOBAL_LAST_KNOWN, INPUT_LAST_KNOWN, OUTPUT_LAST_KNOWN,
};

verus! {

/// A field that occurs at most once, of two sides: the side that has it;
/// either, where both have the same; nothing where they differ.
pub open spec fn merged_opt<T>(a: Option<T>, b: Option<T>) -> Option<Option<T>> {
    match (a, b) {
        (None, _) => Some(b),
        (_, None) => Some(a),
        (Some(x), Some(y)) => if x == y {
            Some(a)
        } else {
            None
        },
    }
}

/// Two input sections as one, or the first field, in the order of the type
/// bytes, on which they disagree.
pub open spec fn merged_input(a: InputView, b: InputView) -> Result<InputView, Field> {
    if merged_opt(a.non_witness_utxo, b.non_witness_utxo) is None {
        Err(Field::NonWitnessUtxo)
    } else if merged_opt(a.witness_utxo, b.witness_utxo) is None {
        Err(Field::WitnessUtxo)
    } else if united(a.partial_sigs, b.partial_sigs) is None {
        Err(Field::PartialSigs)
    } else if merged_opt(a.sighash_type, b.sighash_type) is None {
        Err(Field::SighashType)
    } else if merged_opt(a.redeem_script, b.redeem_script) is None {
        Err(Field::RedeemScript)
    } else if merged_opt(a.witness_script, b.witness_script) is None {
        Err(Field::WitnessScript)
    } else if united(a.hd_keypaths, b.hd_keypaths) is None {
        Err(Field::HdKeypaths)
    } else if merged_opt(a.final_script_sig, b.final_script_sig) is None {
        Err(Field::FinalScriptSig)
    } else if merged_opt(a.final_script_witness, b.final_script_witness) is None {
        Err(Field::FinalScriptWitness)
    } else if united(a.unknown, b.unknown) is None {
        Err(Field::Unknown)
    } else {
        Ok(
            InputView {
                non_witness_utxo: merged_opt(a.non_witness_utxo, b.non_witness_utxo).unwrap(),
                witness_utxo: merged_opt(a.witness_utxo, b.witness_utxo).unwrap(),
                partial_sigs: united(a.partial_sigs, b.partial_sigs).unwrap(),
                sighash_type: merged_opt(a.sighash_type, b.sighash_type).unwrap(),
                redeem_script: merged_opt(a.redeem_script, b.redeem_script).unwrap(),
                witness_script: merged_opt(a.witness_script, b.witness_script).unwrap(),
                hd_keypaths: united(a.hd_keypaths, b.hd_keypaths).unwrap(),
                final_script_sig: merged_opt(a.final_script_sig, b.final_script_sig).unwrap(),
                final_script_witness: merged_opt(
                    a.final_script_witness,
                    b.final_script_witness,
                ).unwrap(),
                unknown: united(a.unknown, b.unknown).unwrap(),
            },
        )
    }
}

/// Two output sections as one, or the first field on which they disagree.
pub open spec fn merged_output(a: OutputView, b: OutputView) -> Result<OutputView, Field> {
    if merged_opt(a.redeem_script, b.redeem_script) is None {
        Err(Field::RedeemScript)
    } else if merged_opt(a.witness_script, b.witness_script) is None {
        Err(Field::WitnessScript)
    } else if united(a.hd_keypaths, b.hd_keypaths) is None {
        Err(Field::HdKeypaths)
    } else if united(a.unknown, b.unknown) is None {
        Err(Field::Unknown)
    } else {
        Ok(
            OutputView {
                redeem_script: merged_opt(a.redeem_script, b.redeem_script).unwrap(),
                witness_script: merged_opt(a.witness_script, b.witness_script).unwrap(),
                hd_keypaths: united(a.hd_keypaths, b.hd_keypaths).unwrap(),
                unknown: united(a.unknown, b.unknown).unwrap(),
            },
        )
    }
}

/// The first `n` input sections of two containers, merged pair by pair; the
/// first pair that disagrees decides the error.
pub open spec fn merged_inputs(a: Seq<InputView>, b: Seq<InputView>, n: int) -> Result<
    Seq<InputView>,
    MergeError,
>
    decreases n,
{
    if n <= 0 {
        Ok(Seq::empty())
    } else {
        match merged_inputs(a, b, n - 1) {
            Err(e) => Err(e),
            Ok(front) => match merged_input(a[n - 1], b[n - 1]) {
                Err(field) => Err(
                    MergeError::FieldConflict {
                        section: Section::Input,
                        index: (n - 1) as usize,
                        field,
                    },
                ),
                Ok(m) => Ok(front.push(m)),
            },
        }
    }
}

/// The first `n` output sections of two containers, merged pair by pair; the
/// first pair that disagrees decides the error.
pub open spec fn merged_outputs(a: Seq<OutputView>, b: Seq<OutputView>, n: int) -> Result<
    Seq<OutputView>,
    MergeError,
>
    decreases n,
{
    if n <= 0 {
        Ok(Seq::empty())
    } else {
        match merged_outputs(a, b, n - 1) {
            Err(e) => Err(e),
            Ok(front) => match merged_output(a[n - 1], b[n - 1]) {
                Err(field) => Err(
                    MergeError::FieldConflict {
                        section: Section::Output,
                        index: (n - 1) as usize,
                        field,
                    },
                ),
                Ok(m) => Ok(front.push(m)),
            },
        }
    }
}

/// Two containers of one unsigned transaction as one: the transaction, and
/// every section merged with the section at its place in the other. The
/// global section is looked at first, then the inputs, then the outputs.
pub open spec fn merged_pair(a: PsbtView, b: PsbtView) -> Result<PsbtView, MergeError> {
    match united(a.global.unknown, b.global.unknown) {
        None => Err(
            MergeError::FieldConflict { section: Section::Global, index: 0, field: Field::Unknown },
        ),
        Some(unknown) => match merged_inputs(a.inputs, b.inputs, a.inputs.len() as int) {
            Err(e) => Err(e),
            Ok(inputs) => match merged_outputs(a.outputs, b.outputs, a.outputs.len() as int) {
                Err(e) => Err(e),
                Ok(outputs) => Ok(
                    PsbtView {
                        global: GlobalView { unsigned_tx: a.global.unsigned_tx, unknown },
                        inputs,
                        outputs,
                    },
                ),
            },
        },
    }
}

/// The first container from `from` on whose unsigned transaction differs from
/// that of the first container in any byte.
pub open spec fn first_incompatible(cs: Seq<PsbtView>, from: int) -> Option<int>
    decreases cs.len() - from,
{
    if from < 0 || from >= cs.len() {
        None
    } else if cs[from].global.unsigned_tx != cs[0].global.unsigned_tx {
        Some(from)
    } else {
        first_incompatible(cs, from + 1)
    }
}

/// The first `n` containers merged from the left, the first one being the
/// start.
pub open spec fn folded(cs: Seq<PsbtView>, n: int) -> Result<PsbtView, MergeError>
    decreases n,
{
    if n <= 1 {
        Ok(cs[0])
    } else {
        match folded(cs, n - 1) {
            Err(e) => Err(e),
            Ok(acc) => merged_pair(acc, cs[n - 1]),
        }
    }
}

/// One or more containers as one. All must have the unsigned transaction of
/// the first, byte for byte; then they are merged from the left.
pub open spec fn merged(cs: Seq<PsbtView>) -> Result<PsbtView, MergeError> {
    match first_incompatible(cs, 1) {
        Some(k) => Err(MergeError::Incompatible { index: k as usize }),
        None => folded(cs, cs.len() as int),
    }
}

/// The views of a sequence of containers.
pub open spec fn psbt_views(s: Seq<Psbt>) -> Seq<PsbtView> {
    Seq::new(s.len(), |i: int| s[i]@)
}

/// The two input sections disagree on `field`: both have it with different
/// values, or, for a keyed collection, both hold one key with different
/// values.
pub open spec fn inputs_disagree(a: InputView, b: InputView, field: Field) -> bool {
    match field {
        Field::NonWitnessUtxo => merged_opt(a.non_witness_utxo, b.non_witness_utxo) is None,
        Field::WitnessUtxo => merged_opt(a.witness_utxo, b.witness_utxo) is None,
        Field::PartialSigs => disagree(a.partial_sigs, b.partial_sigs),
        Field::SighashType => merged_opt(a.sighash_type, b.sighash_type) is None,
        Field::RedeemScript => merged_opt(a.redeem_script, b.redeem_script) is None,
        Field::WitnessScript => merged_opt(a.witness_script, b.witness_script) is None,
        Field::HdKeypaths => disagree(a.hd_keypaths, b.hd_keypaths),
        Field::FinalScriptSig => merged_opt(a.final_script_sig, b.final_script_sig) is None,
        Field::FinalScriptWitness => merged_opt(a.final_script_witness, b.final_script_witness)
            is None,
        Field::Unknown => disagree(a.unknown, b.unknown),
    }
}

/// The two output sections disagree on `field`.
pub open spec fn outputs_disagree(a: OutputView, b: OutputView, field: Field) -> bool {
    match field {
        Field::RedeemScript => merged_opt(a.redeem_script, b.redeem_script) is None,
        Field::WitnessScript => merged_opt(a.witness_script, b.witness_script) is None,
        Field::HdKeypaths => disagree(a.hd_keypaths, b.hd_keypaths),
        Field::Unknown => disagree(a.unknown, b.unknown),
        _ => false,
    }
}

proof fn lemma_merged_input_commutes(a: InputView, b: InputView)
    ensures
        merged_input(a, b) == merged_input(b, a),
{
    lemma_united_commutes(a.partial_sigs, b.partial_sigs);
    lemma_united_commutes(a.hd_keypaths, b.hd_keypaths);
    lemma_united_commutes(a.unknown, b.unknown);
}

proof fn lemma_merged_output_commutes(a: OutputView, b: OutputView)
    ensures
        merged_output(a, b) == merged_output(b, a),
{
    lemma_united_commutes(a.hd_keypaths, b.hd_keypaths);
    lemma_united_commutes(a.unknown, b.unknown);
}

proof fn lemma_merged_inputs_commute(a: Seq<InputView>, b: Seq<InputView>, n: int)
    ensures
        merged_inputs(a, b, n) == merged_inputs(b, a, n),
    decreases n,
{
    if n > 0 {
        lemma_merged_inputs_commute(a, b, n - 1);
        lemma_merged_input_commutes(a[n - 1], b[n - 1]);
    }
}

proof fn lemma_merged_outputs_commute(a: Seq<OutputView>, b: Seq<OutputView>, n: int)
    ensures
        merged_outputs(a, b, n) == merged_outputs(b, a, n),
    decreases n,
{
    if n > 0 {
        lemma_merged_outputs_commute(a, b, n - 1);
        lemma_merged_output_commutes(a[n - 1], b[n - 1]);
    }
}

/// Merging two well-formed containers gives the same, whichever of them
/// comes first: the same container, or the same error.
pub proof fn lemma_merge_commutes(a: PsbtView, b: PsbtView)
    requires
        a.wf(),
        b.wf(),
    ensures
        merged(seq![a, b]) == merged(seq![b, a]),
{
    let ab = seq![a, b];
    let ba = seq![b, a];
    reveal_with_fuel(first_incompatible, 3);
    reveal_with_fuel(folded, 3);
    if a.global.unsigned_tx != b.global.unsigned_tx {
        assert(first_incompatible(ab, 1) == Some(1int));
        assert(first_incompatible(ba, 1) == Some(1int));
    } else {
        assert(first_incompatible(ab, 1) is None);
        assert(first_incompatible(ba, 1) is None);
        assert(merged(ab) == merged_pair(a, b));
        assert(merged(ba) == merged_pair(b, a));
        lemma_united_commutes(a.global.unknown, b.global.unknown);
        lemma_merged_inputs_commute(a.inputs, b.inputs, a.inputs.len() as int);
        lemma_merged_outputs_commute(a.outputs, b.outputs, a.outputs.len() as int);
    }
}

/// Merging one container gives that container.
pub proof fn lemma_merge_single(c: PsbtView)
    ensures
        merged(seq![c]) == Ok::<PsbtView, MergeError>(c),
{
    reveal_with_fuel(first_incompatible, 2);
}

proof fn lemma_first_incompatible(cs: Seq<PsbtView>, from: int, k: int)
    requires
        0 <= from <= k < cs.len(),
        cs[k].global.unsigned_tx != cs[0].global.unsigned_tx,
    ensures
        first_incompatible(cs, from) matches Some(j) && from <= j <= k && cs[j].global.unsigned_tx
            != cs[0].global.unsigned_tx && forall|i: int|
            from <= i < j ==> (#[trigger] cs[i]).global.unsigned_tx == cs[0].global.unsigned_tx,
    decreases k - from,
{
    if cs[from].global.unsigned_tx == cs[0].global.unsigned_tx {
        lemma_first_incompatible(cs, from + 1, k);
    }
}

/// Containers of which one has another unsigned transaction than the first,
/// in any byte, do not merge: the error names the first such container.
pub proof fn lemma_merge_incompatible(cs: Seq<PsbtView>, k: int)
    requires
        cs.len() <= usize::MAX,
        1 <= k < cs.len(),
        cs[k].global.unsigned_tx != cs[0].global.unsigned_tx,
    ensures
        merged(cs) matches Err(MergeError::Incompatible { index }) && 1 <= index <= k
            && cs[index as int].global.unsigned_tx != cs[0].global.unsigned_tx,
{
    lemma_first_incompatible(cs, 1, k);
}

proof fn lemma_merged_input_conflict(a: InputView, b: InputView, field: Field)
    requires
        a.wf(),
        b.wf(),
        inputs_disagree(a, b, field),
    ensures
        merged_input(a, b) is Err,
{
    match field {
        Field::PartialSigs => {
            lemma_united_conflict(a.partial_sigs, b.partial_sigs);
        },
        Field::HdKeypaths => {
            lemma_united_conflict(a.hd_keypaths, b.hd_keypaths);
        },
        Field::Unknown => {
            lemma_united_conflict(a.unknown, b.unknown);
        },
        _ => {},
    }
}

proof fn lemma_merged_output_conflict(a: OutputView, b: OutputView, field: Field)
    requires
        a.wf(),
        b.wf(),
        outputs_disagree(a, b, field),
    ensures
        merged_output(a, b) is Err,
{
    match field {
        Field::HdKeypaths => {
            lemma_united_conflict(a.hd_keypaths, b.hd_keypaths);
        },
        Field::Unknown => {
            lemma_united_conflict(a.unknown, b.unknown);
        },
        _ => {},
    }
}

/// Once a pair of input sections disagrees, the merged prefix stays the
/// error of the first such pair.
proof fn lemma_merged_inputs_err(a: Seq<InputView>, b: Seq<InputView>, i: int, n: int)
    requires
        0 <= i <= n,
        merged_inputs(a, b, i) is Err,
    ensures
        merged_inputs(a, b, n) == merged_inputs(a, b, i),
    decreases n - i,
{
    if i < n {
        lemma_merged_inputs_err(a, b, i, n - 1);
    }
}

proof fn lemma_merged_outputs_err(a: Seq<OutputView>, b: Seq<OutputView>, i: int, n: int)
    requires
        0 <= i <= n,
        merged_outputs(a, b, i) is Err,
    ensures
        merged_outputs(a, b, n) == merged_outputs(a, b, i),
    decreases n - i,
{
    if i < n {
        lemma_merged_outputs_err(a, b, i, n - 1);
    }
}

proof fn lemma_merged_inputs_kind(a: Seq<InputView>, b: Seq<InputView>, n: int)
    ensures
        match merged_inputs(a, b, n) {
            Ok(m) => m.len() == (if n <= 0 {
                0
            } else {
                n
            }),
            Err(e) => e is FieldConflict,
        },
    decreases n,
{
    if n > 0 {
        lemma_merged_inputs_kind(a, b, n - 1);
    }
}

proof fn lemma_merged_outputs_kind(a: Seq<OutputView>, b: Seq<OutputView>, n: int)
    ensures
        match merged_outputs(a, b, n) {
            Ok(m) => m.len() == (if n <= 0 {
                0
            } else {
                n
            }),
            Err(e) => e is FieldConflict,
        },
    decreases n,
{
    if n > 0 {
        lemma_merged_outputs_kind(a, b, n - 1);
    }
}

/// Two well-formed containers of one unsigned transaction that disagree on a
/// field of the input section at `index` do not merge: the error is a field
/// conflict, and no value is picked.
pub proof fn lemma_merge_input_conflict(a: PsbtView, b: PsbtView, index: int, field: Field)
    requires
        a.wf(),
        b.wf(),
        a.global.unsigned_tx == b.global.unsigned_tx,
        0 <= index < a.inputs.len(),
        inputs_disagree(a.inputs[index], b.inputs[index], field),
    ensures
        merged(seq![a, b]) matches Err(e) && e is FieldConflict,
{
    reveal_with_fuel(first_incompatible, 3);
    reveal_with_fuel(folded, 3);
    let ab = seq![a, b];
    assert(first_incompatible(ab, 1) is None);
    assert(merged(ab) == merged_pair(a, b));
    let n = a.inputs.len() as int;
    lemma_merged_input_conflict(a.inputs[index], b.inputs[index], field);
    lemma_merged_inputs_kind(a.inputs, b.inputs, index);
    assert(merged_inputs(a.inputs, b.inputs, index + 1) is Err);
    lemma_merged_inputs_err(a.inputs, b.inputs, index + 1, n);
    lemma_merged_inputs_kind(a.inputs, b.inputs, n);
}

/// Two well-formed containers of one unsigned transaction whose global
/// sections hold one unknown key with different values do not merge: the
/// error is a field conflict, and no value is picked.
pub proof fn lemma_merge_global_conflict(a: PsbtView, b: PsbtView)
    requires
        a.wf(),
        b.wf(),
        a.global.unsigned_tx == b.global.unsigned_tx,
        disagree(a.global.unknown, b.global.unknown),
    ensures
        merged(seq![a, b]) matches Err(e) && e is FieldConflict,
{
    reveal_with_fuel(first_incompatible, 3);
    reveal_with_fuel(folded, 3);
    let ab = seq![a, b];
    assert(first_incompatible(ab, 1) is None);
    assert(merged(ab) == merged_pair(a, b));
    lemma_united_conflict(a.global.unknown, b.global.unknown);
}

/// Two well-formed containers of one unsigned transaction that disagree on a
/// field of the output section at `index` do not merge: the error is a field
/// conflict, and no value is picked.
pub proof fn lemma_merge_output_conflict(a: PsbtView, b: PsbtView, index: int, field: Field)
    requires
        a.wf(),
        b.wf(),
        a.global.unsigned_tx == b.global.unsigned_tx,
        0 <= index < a.outputs.len(),
        outputs_disagree(a.outputs[index], b.outputs[index], field),
    ensures
        merged(seq![a, b]) matches Err(e) && e is FieldConflict,
{
    reveal_with_fuel(first_incompatible, 3);
    reveal_with_fuel(folded, 3);
    let ab = seq![a, b];
    assert(first_incompatible(ab, 1) is None);
    assert(merged(ab) == merged_pair(a, b));
    let n = a.outputs.len() as int;
    lemma_merged_output_conflict(a.outputs[index], b.outputs[index], field);
    lemma_merged_outputs_kind(a.outputs, b.outputs, index);
    assert(merged_outputs(a.outputs, b.outputs, index + 1) is Err);
    lemma_merged_outputs_err(a.outputs, b.outputs, index + 1, n);
    lemma_merged_outputs_kind(a.outputs, b.outputs, n);
    lemma_merged_inputs_kind(a.inputs, b.inputs, a.inputs.len() as int);
}


/// Whether two witness stacks hold the same items.
pub fn stack_eq(a: &Vec<Vec<u8>>, b: &Vec<Vec<u8>>) -> (r: bool)
    ensures
        r == (stack_view(a@) == stack_view(b@)),
{
    if a.len() != b.len() {
        proof {
            assert(stack_view(a@).len() != stack_view(b@).len());
        }
        return false;
    }
    let mut i: usize = 0;
    while i < a.len()
        invariant
            i <= a.len(),
            a.len() == b.len(),
            forall|j: int| 0 <= j < i ==> a@[j]@ == b@[j]@,
        decreases a.len() - i,
    {
        if !bytes_eq(&a[i], &b[i]) {
            proof {
                assert(stack_view(a@)[i as int] != stack_view(b@)[i as int]);
            }
            return false;
        }
        i += 1;
    }
    proof {
        assert(stack_view(a@) =~= stack_view(b@));
    }
    true
}

/// An owned copy of a witness stack.
pub fn copy_stack(w: &Vec<Vec<u8>>) -> (r: Vec<Vec<u8>>)
    ensures
        stack_view(r@) == stack_view(w@),
{
    let mut out: Vec<Vec<u8>> = Vec::new();
    let mut i: usize = 0;
    while i < w.len()
        invariant
            i <= w.len(),
            out@.len() == i,
            forall|j: int| 0 <= j < i ==> out@[j]@ == w@[j]@,
        decreases w.len() - i,
    {
        out.push(copy_bytes(&w[i]));
        i += 1;
    }
    proof {
        assert(stack_view(out@) =~= stack_view(w@));
    }
    out
}

/// An owned copy of a transaction output.
pub fn copy_txout(o: &TxOut) -> (r: TxOut)
    ensures
        r@ == o@,
{
    TxOut { value: o.value, script_pubkey: copy_bytes(&o.script_pubkey) }
}

/// The view of an optional transaction output.
pub open spec fn opt_txout(o: Option<TxOut>) -> Option<TxOutView> {
    match o {
        Some(o) => Some(o@),
        None => None,
    }
}

/// The view of an optional witness stack.
pub open spec fn opt_stack(w: Option<Vec<Vec<u8>>>) -> Option<Seq<Seq<u8>>> {
    match w {
        Some(w) => Some(stack_view(w@)),
        None => None,
    }
}

/// Merges an optional byte string of two sides.
pub fn merge_bytes(a: &Option<Vec<u8>>, b: &Option<Vec<u8>>) -> (r: Option<Option<Vec<u8>>>)
    ensures
        match r {
            Some(m) => merged_opt(opt_bytes(*a), opt_bytes(*b)) == Some(opt_bytes(m)),
            None => merged_opt(opt_bytes(*a), opt_bytes(*b)) is None,
        },
{
    match (a, b) {
        (None, _) => Some(copy_opt(b)),
        (_, None) => Some(copy_opt(a)),
        (Some(x), Some(y)) => if bytes_eq(x, y) {
            Some(copy_opt(a))
        } else {
            None
        },
    }
}

/// Merges an optional transaction output of two sides.
pub fn merge_txout(a: &Option<TxOut>, b: &Option<TxOut>) -> (r: Option<Option<TxOut>>)
    ensures
        match r {
            Some(m) => merged_opt(opt_txout(*a), opt_txout(*b)) == Some(opt_txout(m)),
            None => merged_opt(opt_txout(*a), opt_txout(*b)) is None,
        },
{
    match (a, b) {
        (None, None) => Some(None),
        (None, Some(y)) => Some(Some(copy_txout(y))),
        (Some(x), None) => Some(Some(copy_txout(x))),
        (Some(x), Some(y)) => if x.value == y.value && bytes_eq(&x.script_pubkey, &y.script_pubkey) {
            Some(Some(copy_txout(x)))
        } else {
            None
        },
    }
}

/// Merges an optional signature-hash type of two sides.
pub fn merge_sighash(a: Option<SigHashType>, b: Option<SigHashType>) -> (r: Option<
    Option<SigHashType>,
>)
    ensures
        r == merged_opt(a, b),
{
    match (a, b) {
        (None, _) => Some(b),
        (_, None) => Some(a),
        (Some(x), Some(y)) => if x == y {
            Some(a)
        } else {
            None
        },
    }
}

/// Merges an optional witness stack of two sides.
pub fn merge_stack(a: &Option<Vec<Vec<u8>>>, b: &Option<Vec<Vec<u8>>>) -> (r: Option<
    Option<Vec<Vec<u8>>>,
>)
    ensures
        match r {
            Some(m) => merged_opt(opt_stack(*a), opt_stack(*b)) == Some(opt_stack(m)),
            None => merged_opt(opt_stack(*a), opt_stack(*b)) is None,
        },
{
    match (a, b) {
        (None, None) => Some(None),
        (None, Some(y)) => Some(Some(copy_stack(y))),
        (Some(x), None) => Some(Some(copy_stack(x))),
        (Some(x), Some(y)) => if stack_eq(x, y) {
            Some(Some(copy_stack(x)))
        } else {
            None
        },
    }
}

impl Input {
    /// Merges two input sections, or names the first field on which they
    /// disagree.
    pub fn merge(a: &Input, b: &Input) -> (r: Result<Input, Field>)
        requires
            a@.wf(),
            b@.wf(),
        ensures
            match r {
                Ok(m) => merged_input(a@, b@) == Ok::<InputView, Field>(m@) && m@.wf(),
                Err(f) => merged_input(a@, b@) == Err::<InputView, Field>(f),
            },
    {
        let non_witness_utxo = match merge_bytes(&a.non_witness_utxo, &b.non_witness_utxo) {
            None => {
                return Err(Field::NonWitnessUtxo);
            },
            Some(m) => m,
        };
        let witness_utxo = match merge_txout(&a.witness_utxo, &b.witness_utxo) {
            None => {
                return Err(Field::WitnessUtxo);
            },
            Some(m) => m,
        };
        let partial_sigs = match unite(&a.partial_sigs, &b.partial_sigs) {
            None => {
                return Err(Field::PartialSigs);
            },
            Some(m) => m,
        };
        let sighash_type = match merge_sighash(a.sighash_type, b.sighash_type) {
            None => {
                return Err(Field::SighashType);
            },
            Some(m) => m,
        };
        let redeem_script = match merge_bytes(&a.redeem_script, &b.redeem_script) {
            None => {
                return Err(Field::RedeemScript);
            },
            Some(m) => m,
        };
        let witness_script = match merge_bytes(&a.witness_script, &b.witness_script) {
            None => {
                return Err(Field::WitnessScript);
            },
            Some(m) => m,
        };
        let hd_keypaths = match unite(&a.hd_keypaths, &b.hd_keypaths) {
            None => {
                return Err(Field::HdKeypaths);
            },
            Some(m) => m,
        };
        let final_script_sig = match merge_bytes(&a.final_script_sig, &b.final_script_sig) {
            None => {
                return Err(Field::FinalScriptSig);
            },
            Some(m) => m,
        };
        let final_script_witness = match merge_stack(
            &a.final_script_witness,
            &b.final_script_witness,
        ) {
            None => {
                return Err(Field::FinalScriptWitness);
            },
            Some(m) => m,
        };
        let unknown = match unite(&a.unknown, &b.unknown) {
            None => {
                return Err(Field::Unknown);
            },
            Some(m) => m,
        };
        proof {
            lemma_united_all(
                a@.partial_sigs,
                b@.partial_sigs,
                |e: (Seq<u8>, Seq<u8>)| is_pubkey(e.0),
            );
            lemma_united_all(a@.hd_keypaths, b@.hd_keypaths, |e: (Seq<u8>, Seq<u8>)| is_pubkey(e.0));
            lemma_united_all(
                a@.hd_keypaths,
                b@.hd_keypaths,
                |e: (Seq<u8>, Seq<u8>)| is_key_source(e.1),
            );
            lemma_united_all(
                a@.unknown,
                b@.unknown,
                |e: (Seq<u8>, Seq<u8>)| e.0.len() > 0 && e.0[0] > INPUT_LAST_KNOWN,
            );
            lemma_united_sized(a@.partial_sigs, b@.partial_sigs);
            lemma_united_sized(a@.hd_keypaths, b@.hd_keypaths);
            lemma_united_sized(a@.unknown, b@.unknown);
        }
        Ok(
            Input {
                non_witness_utxo,
                witness_utxo,
                partial_sigs,
                sighash_type,
                redeem_script,
                witness_script,
                hd_keypaths,
                final_script_sig,
                final_script_witness,
                unknown,
            },
        )
    }

    /// An owned copy of the section.
    pub fn copy(&self) -> (r: Input)
        ensures
            r@ == self@,
    {
        Input {
            non_witness_utxo: copy_opt(&self.non_witness_utxo),
            witness_utxo: match &self.witness_utxo {
                Some(o) => Some(copy_txout(o)),
                None => None,
            },
            partial_sigs: copy_entries(&self.partial_sigs),
            sighash_type: self.sighash_type,
            redeem_script: copy_opt(&self.redeem_script),
            witness_script: copy_opt(&self.witness_script),
            hd_keypaths: copy_entries(&self.hd_keypaths),
            final_script_sig: copy_opt(&self.final_script_sig),
            final_script_witness: match &self.final_script_witness {
                Some(w) => Some(copy_stack(w)),
                None => None,
            },
            unknown: copy_entries(&self.unknown),
        }
    }
}

impl Output {
    /// Merges two output sections, or names the first field on which they
    /// disagree.
    pub fn merge(a: &Output, b: &Output) -> (r: Result<Output, Field>)
        requires
            a@.wf(),
            b@.wf(),
        ensures
            match r {
                Ok(m) => merged_output(a@, b@) == Ok::<OutputView, Field>(m@) && m@.wf(),
                Err(f) => merged_output(a@, b@) == Err::<OutputView, Field>(f),
            },
    {
        let redeem_script = match merge_bytes(&a.redeem_script, &b.redeem_script) {
            None => {
                return Err(Field::RedeemScript);
            },
            Some(m) => m,
        };
        let witness_script = match merge_bytes(&a.witness_script, &b.witness_script) {
            None => {
                return Err(Field::WitnessScript);
            },
            Some(m) => m,
        };
        let hd_keypaths = match unite(&a.hd_keypaths, &b.hd_keypaths) {
            None => {
                return Err(Field::HdKeypaths);
            },
            Some(m) => m,
        };
        let unknown = match unite(&a.unknown, &b.unknown) {
            None => {
                return Err(Field::Unknown);
            },
            Some(m) => m,
        };
        proof {
            lemma_united_all(a@.hd_keypaths, b@.hd_keypaths, |e: (Seq<u8>, Seq<u8>)| is_pubkey(e.0));
            lemma_united_all(
                a@.hd_keypaths,
                b@.hd_keypaths,
                |e: (Seq<u8>, Seq<u8>)| is_key_source(e.1),
            );
            lemma_united_all(
                a@.unknown,
                b@.unknown,
                |e: (Seq<u8>, Seq<u8>)| e.0.len() > 0 && e.0[0] > OUTPUT_LAST_KNOWN,
            );
            lemma_united_sized(a@.hd_keypaths, b@.hd_keypaths);
            lemma_united_sized(a@.unknown, b@.unknown);
        }
        Ok(Output { redeem_script, witness_script, hd_keypaths, unknown })
    }

    /// An owned copy of the section.
    pub fn copy(&self) -> (r: Output)
        ensures
            r@ == self@,
    {
        Output {
            redeem_script: copy_opt(&self.redeem_script),
            witness_script: copy_opt(&self.witness_script),
            hd_keypaths: copy_entries(&self.hd_keypaths),
            unknown: copy_entries(&self.unknown),
        }
    }
}

/// Merges the input sections of two containers pair by pair.
fn merge_inputs(a: &Vec<Input>, b: &Vec<Input>) -> (r: Result<Vec<Input>, MergeError>)
    requires
        a@.len() == b@.len(),
        forall|i: int| 0 <= i < a@.len() ==> (#[trigger] a@[i])@.wf(),
        forall|i: int| 0 <= i < b@.len() ==> (#[trigger] b@[i])@.wf(),
    ensures
        match r {
            Ok(m) => merged_inputs(input_views(a@), input_views(b@), a@.len() as int) == Ok::<
                Seq<InputView>,
                MergeError,
            >(input_views(m@)) && m@.len() == a@.len() && forall|i: int|
                0 <= i < m@.len() ==> (#[trigger] m@[i])@.wf(),
            Err(e) => merged_inputs(input_views(a@), input_views(b@), a@.len() as int) == Err::<
                Seq<InputView>,
                MergeError,
            >(e),
        },
{
    let ghost av = input_views(a@);
    let ghost bv = input_views(b@);
    let mut out: Vec<Input> = Vec::new();
    let mut i: usize = 0;
    proof {
        assert(input_views(out@) =~= Seq::empty());
    }
    while i < a.len()
        invariant
            i <= a.len(),
            a@.len() == b@.len(),
            av == input_views(a@),
            bv == input_views(b@),
            forall|k: int| 0 <= k < a@.len() ==> (#[trigger] a@[k])@.wf(),
            forall|k: int| 0 <= k < b@.len() ==> (#[trigger] b@[k])@.wf(),
            out@.len() == i,
            forall|k: int| 0 <= k < out@.len() ==> (#[trigger] out@[k])@.wf(),
            merged_inputs(av, bv, i as int) == Ok::<Seq<InputView>, MergeError>(input_views(out@)),
        decreases a.len() - i,
    {
        let ghost before = input_views(out@);
        match Input::merge(&a[i], &b[i]) {
            Err(field) => {
                proof {
                    lemma_merged_inputs_err(av, bv, i as int + 1, a@.len() as int);
                }
                return Err(MergeError::FieldConflict { section: Section::Input, index: i, field });
            },
            Ok(m) => {
                out.push(m);
                proof {
                    assert(input_views(out@) =~= before.push(m@));
                }
            },
        }
        i += 1;
    }
    Ok(out)
}

/// Merges the output sections of two containers pair by pair.
fn merge_outputs(a: &Vec<Output>, b: &Vec<Output>) -> (r: Result<Vec<Output>, MergeError>)
    requires
        a@.len() == b@.len(),
        forall|i: int| 0 <= i < a@.len() ==> (#[trigger] a@[i])@.wf(),
        forall|i: int| 0 <= i < b@.len() ==> (#[trigger] b@[i])@.wf(),
    ensures
        match r {
            Ok(m) => merged_outputs(output_views(a@), output_views(b@), a@.len() as int) == Ok::<
                Seq<OutputView>,
                MergeError,
            >(output_views(m@)) && m@.len() == a@.len() && forall|i: int|
                0 <= i < m@.len() ==> (#[trigger] m@[i])@.wf(),
            Err(e) => merged_outputs(output_views(a@), output_views(b@), a@.len() as int) == Err::<
                Seq<OutputView>,
                MergeError,
            >(e),
        },
{
    let ghost av = output_views(a@);
    let ghost bv = output_views(b@);
    let mut out: Vec<Output> = Vec::new();
    let mut i: usize = 0;
    proof {
        assert(output_views(out@) =~= Seq::empty());
    }
    while i < a.len()
        invariant
            i <= a.len(),
            a@.len() == b@.len(),
            av == output_views(a@),
            bv == output_views(b@),
            forall|k: int| 0 <= k < a@.len() ==> (#[trigger] a@[k])@.wf(),
            forall|k: int| 0 <= k < b@.len() ==> (#[trigger] b@[k])@.wf(),
            out@.len() == i,
            forall|k: int| 0 <= k < out@.len() ==> (#[trigger] out@[k])@.wf(),
            merged_outputs(av, bv, i as int) == Ok::<Seq<OutputView>, MergeError>(
                output_views(out@),
            ),
        decreases a.len() - i,
    {
        let ghost before = output_views(out@);
        match Output::merge(&a[i], &b[i]) {
            Err(field) => {
                proof {
                    lemma_merged_outputs_err(av, bv, i as int + 1, a@.len() as int);
                }
                return Err(MergeError::FieldConflict { section: Section::Output, index: i, field });
            },
            Ok(m) => {
                out.push(m);
                proof {
                    assert(output_views(out@) =~= before.push(m@));
                }
            },
        }
        i += 1;
    }
    Ok(out)
}

impl Psbt {
    /// An owned copy of the container.
    pub fn copy(&self) -> (r: Psbt)
        ensures
            r@ == self@,
    {
        let mut inputs: Vec<Input> = Vec::new();
        let mut i: usize = 0;
        while i < self.inputs.len()
            invariant
                i <= self.inputs.len(),
                inputs@.len() == i,
                forall|k: int| 0 <= k < i ==> (#[trigger] inputs@[k])@ == self.inputs@[k]@,
            decreases self.inputs.len() - i,
        {
            inputs.push(self.inputs[i].copy());
            i += 1;
        }
        let mut outputs: Vec<Output> = Vec::new();
        let mut j: usize = 0;
        while j < self.outputs.len()
            invariant
                j <= self.outputs.len(),
                outputs@.len() == j,
                forall|k: int| 0 <= k < j ==> (#[trigger] outputs@[k])@ == self.outputs@[k]@,
            decreases self.outputs.len() - j,
        {
            outputs.push(self.outputs[j].copy());
            j += 1;
        }
        let global = Global {
            unsigned_tx: copy_bytes(&self.global.unsigned_tx),
            unknown: copy_entries(&self.global.unknown),
        };
        let r = Psbt { global, inputs, outputs };
        proof {
            assert(r@.inputs =~= self@.inputs);
            assert(r@.outputs =~= self@.outputs);
        }
        r
    }

    /// Merges two containers of one unsigned transaction, or names the first
    /// section and field on which they disagree.
    pub fn merge_pair(a: &Psbt, b: &Psbt) -> (r: Result<Psbt, MergeError>)
        requires
            a@.wf(),
            b@.wf(),
            a@.global.unsigned_tx == b@.global.unsigned_tx,
        ensures
            match r {
                Ok(m) => merged_pair(a@, b@) == Ok::<PsbtView, MergeError>(m@) && m@.wf()
                    && m@.global.unsigned_tx == a@.global.unsigned_tx,
                Err(e) => merged_pair(a@, b@) == Err::<PsbtView, MergeError>(e),
            },
    {
        let unknown = match unite(&a.global.unknown, &b.global.unknown) {
            None => {
                return Err(
                    MergeError::FieldConflict {
                        section: Section::Global,
                        index: 0,
                        field: Field::Unknown,
                    },
                );
            },
            Some(m) => m,
        };
        proof {
            lemma_united_all(
                a@.global.unknown,
                b@.global.unknown,
                |e: (Seq<u8>, Seq<u8>)| e.0.len() > 0 && e.0[0] > GLOBAL_LAST_KNOWN,
            );
            lemma_united_sized(a@.global.unknown, b@.global.unknown);
            assert(a.inputs@.len() == a@.inputs.len());
            assert(b.inputs@.len() == b@.inputs.len());
            assert(a.outputs@.len() == a@.outputs.len());
            assert(b.outputs@.len() == b@.outputs.len());
            assert forall|i: int| 0 <= i < a.inputs@.len() implies (#[trigger] a.inputs@[i])@.wf() by {
                assert(a@.inputs[i].wf());
            }
            assert forall|i: int| 0 <= i < b.inputs@.len() implies (#[trigger] b.inputs@[i])@.wf() by {
                assert(b@.inputs[i].wf());
            }
            assert forall|i: int| 0 <= i < a.outputs@.len() implies (#[trigger] a.outputs@[i])@.wf() by {
                assert(a@.outputs[i].wf());
            }
            assert forall|i: int| 0 <= i < b.outputs@.len() implies (#[trigger] b.outputs@[i])@.wf() by {
                assert(b@.outputs[i].wf());
            }
        }
        let inputs = match merge_inputs(&a.inputs, &b.inputs) {
            Err(e) => {
                return Err(e);
            },
            Ok(m) => m,
        };
        let outputs = match merge_outputs(&a.outputs, &b.outputs) {
            Err(e) => {
                return Err(e);
            },
            Ok(m) => m,
        };
        let global = Global { unsigned_tx: copy_bytes(&a.global.unsigned_tx), unknown };
        let m = Psbt { global, inputs, outputs };
        proof {
            assert forall|i: int| 0 <= i < m@.inputs.len() implies (#[trigger] m@.inputs[i]).wf() by {
                assert(m.inputs@[i]@.wf());
            }
            assert forall|i: int| 0 <= i < m@.outputs.len() implies (#[trigger] m@.outputs[i]).wf() by {
                assert(m.outputs@[i]@.wf());
            }
        }
        Ok(m)
    }
}

/// Once merging from the left has failed, the error stays.
proof fn lemma_folded_err(cs: Seq<PsbtView>, i: int, n: int)
    requires
        1 <= i <= n,
        folded(cs, i) is Err,
    ensures
        folded(cs, n) == folded(cs, i),
    decreases n - i,
{
    if i < n {
        lemma_folded_err(cs, i, n - 1);
    }
}

/// Merges one or more containers into one. Fails with `Incompatible` where a
/// container has another unsigned transaction than the first, and with
/// `FieldConflict` where two containers disagree on a field; then nothing is
/// merged.
pub fn merge(containers: &Vec<Psbt>) -> (r: Result<Psbt, MergeError>)
    requires
        containers@.len() >= 1,
        forall|i: int| 0 <= i < containers@.len() ==> (#[trigger] containers@[i])@.wf(),
    ensures
        match r {
            Ok(m) => merged(psbt_views(containers@)) == Ok::<PsbtView, MergeError>(m@) && m@.wf(),
            Err(e) => merged(psbt_views(containers@)) == Err::<PsbtView, MergeError>(e),
        },
{
    let ghost cs = psbt_views(containers@);
    let mut k: usize = 1;
    while k < containers.len()
        invariant
            1 <= k <= containers.len(),
            cs == psbt_views(containers@),
            first_incompatible(cs, 1) == first_incompatible(cs, k as int),
            forall|i: int|
                0 <= i < k ==> (#[trigger] cs[i]).global.unsigned_tx == cs[0].global.unsigned_tx,
        decreases containers.len() - k,
    {
        proof {
            assert(cs[k as int] == containers@[k as int]@);
            assert(cs[0] == containers@[0]@);
        }
        if !bytes_eq(&containers[k].global.unsigned_tx, &containers[0].global.unsigned_tx) {
            return Err(MergeError::Incompatible { index: k });
        }
        k += 1;
    }
    let mut acc: Psbt = containers[0].copy();
    let mut n: usize = 1;
    proof {
        assert(cs[0] == containers@[0]@);
        assert(containers@[0]@.wf());
    }
    while n < containers.len()
        invariant
            1 <= n <= containers.len(),
            cs == psbt_views(containers@),
            forall|i: int| 0 <= i < containers@.len() ==> (#[trigger] containers@[i])@.wf(),
            forall|i: int|
                0 <= i < cs.len() ==> (#[trigger] cs[i]).global.unsigned_tx
                    == cs[0].global.unsigned_tx,
            first_incompatible(cs, 1) is None,
            folded(cs, n as int) == Ok::<PsbtView, MergeError>(acc@),
            acc@.wf(),
            acc@.global.unsigned_tx == cs[0].global.unsigned_tx,
        decreases containers.len() - n,
    {
        proof {
            assert(cs[n as int] == containers@[n as int]@);
            assert(containers@[n as int]@.wf());
        }
        match Psbt::merge_pair(&acc, &containers[n]) {
            Err(e) => {
                proof {
                    lemma_folded_err(cs, n as int + 1, cs.len() as int);
                }
                return Err(e);
            },
            Ok(m) => {
                acc = m;
            },
        }
        n += 1;
    }
    Ok(acc)
}

} // verus!
