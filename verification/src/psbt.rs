//! The display document of a container: what is present, and nothing else.
//!
//! A field that a section does not have, and a keyed collection without
//! entries, is not shown. Byte strings are held as `HexBytes`, whose text is
//! lowercase hexadecimal. A nested transaction, output or script is handed on
//! as it is, its bytes together with the network flag, to whatever renders
//! transactions; the flag is for addresses and changes nothing here. Fields
//! of unknown type are not part of the document.

use vstd::prelude::*;
use crate::bytes::copy_bytes;
use crate::error::Field;
use crate::model::{
    Global, GlobalView, Input, InputView, Output, OutputView, Psbt, PsbtView,
};
use crate::keysource::{fingerprint_of, path_of, read_path};
use crate::text::{path_text, sighash_name, string_derivation_path, string_sighashtype};
use crate::wire::{entry_views, Entry};
use crate::HexBytes;

verus! {

/// A transaction for the transaction renderer: its serialized bytes, and
/// whether addresses are those of the test network.
#[derive(Clone, PartialEq, Eq, Debug)]
pub struct TransactionInfo {
    pub raw: HexBytes,
    pub testnet: bool,
}

/// A `TransactionInfo` as a mathematical value.
pub struct TransactionInfoView {
    pub raw: Seq<u8>,
    pub testnet: bool,
}

impl View for TransactionInfo {
    type V = TransactionInfoView;

    open spec fn view(&self) -> TransactionInfoView {
        TransactionInfoView { raw: self.raw@, testnet: self.testnet }
    }
}

/// A script that guards an output, for the transaction renderer.
#[derive(Clone, PartialEq, Eq, Debug)]
pub struct OutputScriptInfo {
    pub hex: HexBytes,
    pub testnet: bool,
}

/// An `OutputScriptInfo` as a mathematical value.
pub struct OutputScriptInfoView {
    pub hex: Seq<u8>,
    pub testnet: bool,
}

impl View for OutputScriptInfo {
    type V = OutputScriptInfoView;

    open spec fn view(&self) -> OutputScriptInfoView {
        OutputScriptInfoView { hex: self.hex@, testnet: self.testnet }
    }
}

/// A script that satisfies an input.
#[derive(Clone, PartialEq, Eq, Debug)]
pub struct InputScriptInfo {
    pub hex: HexBytes,
}

/// An `InputScriptInfo` as a mathematical value.
pub struct InputScriptInfoView {
    pub hex: Seq<u8>,
}

impl View for InputScriptInfo {
    type V = InputScriptInfoView;

    open spec fn view(&self) -> InputScriptInfoView {
        InputScriptInfoView { hex: self.hex@ }
    }
}

/// A transaction output: its amount and its script.
#[derive(Clone, PartialEq, Eq, Debug)]
pub struct OutputInfo {
    pub value: u64,
    pub script_pub_key: OutputScriptInfo,
}

/// An `OutputInfo` as a mathematical value.
pub struct OutputInfoView {
    pub value: u64,
    pub script_pub_key: OutputScriptInfoView,
}

impl View for OutputInfo {
    type V = OutputInfoView;

    open spec fn view(&self) -> OutputInfoView {
        OutputInfoView { value: self.value, script_pub_key: self.script_pub_key@ }
    }
}

/// The document of the global section.
#[derive(Clone, PartialEq, Eq, Debug)]
pub struct PsbtGlobalInfo {
    pub unsigned_tx: TransactionInfo,
}

/// A `PsbtGlobalInfo` as a mathematical value.
pub struct PsbtGlobalInfoView {
    pub unsigned_tx: TransactionInfoView,
}

impl View for PsbtGlobalInfo {
    type V = PsbtGlobalInfoView;

    open spec fn view(&self) -> PsbtGlobalInfoView {
        PsbtGlobalInfoView { unsigned_tx: self.unsigned_tx@ }
    }
}

/// Where a public key comes from: the fingerprint of the master key, and the
/// derivation path as text.
#[derive(Clone, PartialEq, Eq, Debug)]
pub struct HDPathInfo {
    pub master_fingerprint: HexBytes,
    pub path: String,
}

/// An `HDPathInfo` as a mathematical value.
pub struct HDPathInfoView {
    pub master_fingerprint: Seq<u8>,
    pub path: Seq<char>,
}

impl View for HDPathInfo {
    type V = HDPathInfoView;

    open spec fn view(&self) -> HDPathInfoView {
        HDPathInfoView { master_fingerprint: self.master_fingerprint@, path: self.path@ }
    }
}

/// The document of an input section. The keyed collections are in ascending
/// order of their keys.
#[derive(Clone, PartialEq, Eq, Debug)]
pub struct PsbtInputInfo {
    pub non_witness_utxo: Option<TransactionInfo>,
    pub witness_utxo: Option<OutputInfo>,
    pub partial_sigs: Vec<(HexBytes, HexBytes)>,
    pub sighash_type: Option<String>,
    pub redeem_script: Option<OutputScriptInfo>,
    pub witness_script: Option<OutputScriptInfo>,
    pub hd_keypaths: Vec<(HexBytes, HDPathInfo)>,
    pub final_script_sig: Option<InputScriptInfo>,
    pub final_script_witness: Option<Vec<HexBytes>>,
}

/// A `PsbtInputInfo` as a mathematical value.
pub struct PsbtInputInfoView {
    pub non_witness_utxo: Option<TransactionInfoView>,
    pub witness_utxo: Option<OutputInfoView>,
    pub partial_sigs: Seq<(Seq<u8>, Seq<u8>)>,
    pub sighash_type: Option<Seq<char>>,
    pub redeem_script: Option<OutputScriptInfoView>,
    pub witness_script: Option<OutputScriptInfoView>,
    pub hd_keypaths: Seq<(Seq<u8>, HDPathInfoView)>,
    pub final_script_sig: Option<InputScriptInfoView>,
    pub final_script_witness: Option<Seq<Seq<u8>>>,
}

/// The document of an output section.
#[derive(Clone, PartialEq, Eq, Debug)]
pub struct PsbtOutputInfo {
    pub redeem_script: Option<OutputScriptInfo>,
    pub witness_script: Option<OutputScriptInfo>,
    pub hd_keypaths: Vec<(HexBytes, HDPathInfo)>,
}

/// A `PsbtOutputInfo` as a mathematical value.
pub struct PsbtOutputInfoView {
    pub redeem_script: Option<OutputScriptInfoView>,
    pub witness_script: Option<OutputScriptInfoView>,
    pub hd_keypaths: Seq<(Seq<u8>, HDPathInfoView)>,
}

/// The document of a container.
#[derive(Clone, PartialEq, Eq, Debug)]
pub struct PsbtInfo {
    pub global: PsbtGlobalInfo,
    pub inputs: Vec<PsbtInputInfo>,
    pub outputs: Vec<PsbtOutputInfo>,
}

/// A `PsbtInfo` as a mathematical value.
pub struct PsbtInfoView {
    pub global: PsbtGlobalInfoView,
    pub inputs: Seq<PsbtInputInfoView>,
    pub outputs: Seq<PsbtOutputInfoView>,
}

/// The view of an optional script of an output.
pub open spec fn opt_script(o: Option<OutputScriptInfo>) -> Option<OutputScriptInfoView> {
    match o {
        Some(s) => Some(s@),
        None => None,
    }
}

/// The pairs of byte strings that pairs of `HexBytes` hold.
pub open spec fn pair_views(s: Seq<(HexBytes, HexBytes)>) -> Seq<(Seq<u8>, Seq<u8>)> {
    Seq::new(s.len(), |i: int| (s[i].0@, s[i].1@))
}

/// The keys and key sources that a collection of key paths holds.
pub open spec fn path_views(s: Seq<(HexBytes, HDPathInfo)>) -> Seq<(Seq<u8>, HDPathInfoView)> {
    Seq::new(s.len(), |i: int| (s[i].0@, s[i].1@))
}

/// The byte strings that a sequence of `HexBytes` holds.
pub open spec fn hex_views(s: Seq<HexBytes>) -> Seq<Seq<u8>> {
    Seq::new(s.len(), |i: int| s[i]@)
}

impl View for PsbtInputInfo {
    type V = PsbtInputInfoView;

    open spec fn view(&self) -> PsbtInputInfoView {
        PsbtInputInfoView {
            non_witness_utxo: match self.non_witness_utxo {
                Some(t) => Some(t@),
                None => None,
            },
            witness_utxo: match self.witness_utxo {
                Some(o) => Some(o@),
                None => None,
            },
            partial_sigs: pair_views(self.partial_sigs@),
            sighash_type: match self.sighash_type {
                Some(s) => Some(s@),
                None => None,
            },
            redeem_script: opt_script(self.redeem_script),
            witness_script: opt_script(self.witness_script),
            hd_keypaths: path_views(self.hd_keypaths@),
            final_script_sig: match self.final_script_sig {
                Some(s) => Some(s@),
                None => None,
            },
            final_script_witness: match self.final_script_witness {
                Some(w) => Some(hex_views(w@)),
                None => None,
            },
        }
    }
}

impl View for PsbtOutputInfo {
    type V = PsbtOutputInfoView;

    open spec fn view(&self) -> PsbtOutputInfoView {
        PsbtOutputInfoView {
            redeem_script: opt_script(self.redeem_script),
            witness_script: opt_script(self.witness_script),
            hd_keypaths: path_views(self.hd_keypaths@),
        }
    }
}

/// The views of a sequence of projected input sections.
pub open spec fn input_info_views(s: Seq<PsbtInputInfo>) -> Seq<PsbtInputInfoView> {
    Seq::new(s.len(), |i: int| s[i]@)
}

/// The views of a sequence of projected output sections.
pub open spec fn output_info_views(s: Seq<PsbtOutputInfo>) -> Seq<PsbtOutputInfoView> {
    Seq::new(s.len(), |i: int| s[i]@)
}

impl View for PsbtInfo {
    type V = PsbtInfoView;

    open spec fn view(&self) -> PsbtInfoView {
        PsbtInfoView {
            global: self.global@,
            inputs: input_info_views(self.inputs@),
            outputs: output_info_views(self.outputs@),
        }
    }
}

/// A script of an output with the network flag, where there is a script.
pub open spec fn script_info(script: Option<Seq<u8>>, testnet: bool) -> Option<
    OutputScriptInfoView,
> {
    match script {
        Some(s) => Some(OutputScriptInfoView { hex: s, testnet }),
        None => None,
    }
}

/// The key paths of a section: each public key with the fingerprint and the
/// path text of its derivation record.
pub open spec fn paths_info(paths: Seq<(Seq<u8>, Seq<u8>)>) -> Seq<(Seq<u8>, HDPathInfoView)> {
    Seq::new(
        paths.len(),
        |i: int|
            (
                paths[i].0,
                HDPathInfoView {
                    master_fingerprint: fingerprint_of(paths[i].1),
                    path: path_text(path_of(paths[i].1)),
                },
            ),
    )
}

/// The projection of the global section.
pub open spec fn global_info(g: GlobalView, testnet: bool) -> PsbtGlobalInfoView {
    PsbtGlobalInfoView { unsigned_tx: TransactionInfoView { raw: g.unsigned_tx, testnet } }
}

/// The projection of an input section.
pub open spec fn input_info(i: InputView, testnet: bool) -> PsbtInputInfoView {
    PsbtInputInfoView {
        non_witness_utxo: match i.non_witness_utxo {
            Some(tx) => Some(TransactionInfoView { raw: tx, testnet }),
            None => None,
        },
        witness_utxo: match i.witness_utxo {
            Some(o) => Some(
                OutputInfoView {
                    value: o.value,
                    script_pub_key: OutputScriptInfoView { hex: o.script_pubkey, testnet },
                },
            ),
            None => None,
        },
        partial_sigs: i.partial_sigs,
        sighash_type: match i.sighash_type {
            Some(t) => Some(sighash_name(t)),
            None => None,
        },
        redeem_script: script_info(i.redeem_script, testnet),
        witness_script: script_info(i.witness_script, testnet),
        hd_keypaths: paths_info(i.hd_keypaths),
        final_script_sig: match i.final_script_sig {
            Some(s) => Some(InputScriptInfoView { hex: s }),
            None => None,
        },
        final_script_witness: i.final_script_witness,
    }
}

/// The projection of an output section.
pub open spec fn output_info(o: OutputView, testnet: bool) -> PsbtOutputInfoView {
    PsbtOutputInfoView {
        redeem_script: script_info(o.redeem_script, testnet),
        witness_script: script_info(o.witness_script, testnet),
        hd_keypaths: paths_info(o.hd_keypaths),
    }
}

/// The projection of a container.
pub open spec fn psbt_info(c: PsbtView, testnet: bool) -> PsbtInfoView {
    PsbtInfoView {
        global: global_info(c.global, testnet),
        inputs: Seq::new(c.inputs.len(), |i: int| input_info(c.inputs[i], testnet)),
        outputs: Seq::new(c.outputs.len(), |i: int| output_info(c.outputs[i], testnet)),
    }
}

/// `shown` with `field` behind it where `present` holds.
pub open spec fn with_if(shown: Seq<Field>, present: bool, field: Field) -> Seq<Field> {
    if present {
        shown.push(field)
    } else {
        shown
    }
}

proof fn lemma_with_if(shown: Seq<Field>, present: bool, field: Field, other: Field)
    ensures
        with_if(shown, present, field).contains(other) <==> (shown.contains(other) || (present
            && field == other)),
{
    if present {
        let next = shown.push(field);
        if next.contains(other) {
            let i = choose|i: int| 0 <= i < next.len() && next[i] == other;
            if i < shown.len() {
                assert(shown[i] == other);
            }
        }
        if shown.contains(other) {
            let i = choose|i: int| 0 <= i < shown.len() && shown[i] == other;
            assert(next[i] == other);
        }
        if field == other {
            assert(next[shown.len() as int] == other);
        }
    }
}

impl PsbtInputInfoView {
    /// The fields that the document of the section shows, in their order.
    pub open spec fn shown(self) -> Seq<Field> {
        let s0 = with_if(Seq::empty(), self.non_witness_utxo is Some, Field::NonWitnessUtxo);
        let s1 = with_if(s0, self.witness_utxo is Some, Field::WitnessUtxo);
        let s2 = with_if(s1, self.partial_sigs.len() > 0, Field::PartialSigs);
        let s3 = with_if(s2, self.sighash_type is Some, Field::SighashType);
        let s4 = with_if(s3, self.redeem_script is Some, Field::RedeemScript);
        let s5 = with_if(s4, self.witness_script is Some, Field::WitnessScript);
        let s6 = with_if(s5, self.hd_keypaths.len() > 0, Field::HdKeypaths);
        let s7 = with_if(s6, self.final_script_sig is Some, Field::FinalScriptSig);
        with_if(s7, self.final_script_witness is Some, Field::FinalScriptWitness)
    }
}

impl PsbtOutputInfoView {
    /// The fields that the document of the section shows, in their order.
    pub open spec fn shown(self) -> Seq<Field> {
        let s0 = with_if(Seq::empty(), self.redeem_script is Some, Field::RedeemScript);
        let s1 = with_if(s0, self.witness_script is Some, Field::WitnessScript);
        with_if(s1, self.hd_keypaths.len() > 0, Field::HdKeypaths)
    }
}

impl InputView {
    /// The section has the field: it is set, or, for a keyed collection, it
    /// has an entry.
    pub open spec fn has(self, field: Field) -> bool {
        match field {
            Field::NonWitnessUtxo => self.non_witness_utxo is Some,
            Field::WitnessUtxo => self.witness_utxo is Some,
            Field::PartialSigs => self.partial_sigs.len() > 0,
            Field::SighashType => self.sighash_type is Some,
            Field::RedeemScript => self.redeem_script is Some,
            Field::WitnessScript => self.witness_script is Some,
            Field::HdKeypaths => self.hd_keypaths.len() > 0,
            Field::FinalScriptSig => self.final_script_sig is Some,
            Field::FinalScriptWitness => self.final_script_witness is Some,
            Field::Unknown => self.unknown.len() > 0,
        }
    }
}

impl OutputView {
    /// The section has the field: it is set, or, for a keyed collection, it
    /// has an entry.
    pub open spec fn has(self, field: Field) -> bool {
        match field {
            Field::RedeemScript => self.redeem_script is Some,
            Field::WitnessScript => self.witness_script is Some,
            Field::HdKeypaths => self.hd_keypaths.len() > 0,
            Field::Unknown => self.unknown.len() > 0,
            _ => false,
        }
    }
}

/// The document of an input section shows exactly the fields that the section
/// has, the fields of unknown type apart, which it never shows.
pub proof fn lemma_input_info_shows(i: InputView, testnet: bool, field: Field)
    ensures
        input_info(i, testnet).shown().contains(field) <==> (i.has(field) && field
            != Field::Unknown),
{
    let v = input_info(i, testnet);
    let s0 = with_if(Seq::empty(), v.non_witness_utxo is Some, Field::NonWitnessUtxo);
    let s1 = with_if(s0, v.witness_utxo is Some, Field::WitnessUtxo);
    let s2 = with_if(s1, v.partial_sigs.len() > 0, Field::PartialSigs);
    let s3 = with_if(s2, v.sighash_type is Some, Field::SighashType);
    let s4 = with_if(s3, v.redeem_script is Some, Field::RedeemScript);
    let s5 = with_if(s4, v.witness_script is Some, Field::WitnessScript);
    let s6 = with_if(s5, v.hd_keypaths.len() > 0, Field::HdKeypaths);
    let s7 = with_if(s6, v.final_script_sig is Some, Field::FinalScriptSig);
    lemma_with_if(Seq::empty(), v.non_witness_utxo is Some, Field::NonWitnessUtxo, field);
    lemma_with_if(s0, v.witness_utxo is Some, Field::WitnessUtxo, field);
    lemma_with_if(s1, v.partial_sigs.len() > 0, Field::PartialSigs, field);
    lemma_with_if(s2, v.sighash_type is Some, Field::SighashType, field);
    lemma_with_if(s3, v.redeem_script is Some, Field::RedeemScript, field);
    lemma_with_if(s4, v.witness_script is Some, Field::WitnessScript, field);
    lemma_with_if(s5, v.hd_keypaths.len() > 0, Field::HdKeypaths, field);
    lemma_with_if(s6, v.final_script_sig is Some, Field::FinalScriptSig, field);
    lemma_with_if(s7, v.final_script_witness is Some, Field::FinalScriptWitness, field);
    assert(!Seq::<Field>::empty().contains(field));
}

/// The document of an output section shows exactly the fields that the
/// section has, the fields of unknown type apart, which it never shows.
pub proof fn lemma_output_info_shows(o: OutputView, testnet: bool, field: Field)
    ensures
        output_info(o, testnet).shown().contains(field) <==> (o.has(field) && field
            != Field::Unknown),
{
    let v = output_info(o, testnet);
    let s0 = with_if(Seq::empty(), v.redeem_script is Some, Field::RedeemScript);
    let s1 = with_if(s0, v.witness_script is Some, Field::WitnessScript);
    lemma_with_if(Seq::empty(), v.redeem_script is Some, Field::RedeemScript, field);
    lemma_with_if(s0, v.witness_script is Some, Field::WitnessScript, field);
    lemma_with_if(s1, v.hd_keypaths.len() > 0, Field::HdKeypaths, field);
    assert(!Seq::<Field>::empty().contains(field));
}

/// The document of a container without a witness script in any section shows
/// a witness script in no section.
pub proof fn lemma_no_witness_script(c: PsbtView, testnet: bool)
    requires
        forall|i: int| 0 <= i < c.inputs.len() ==> (#[trigger] c.inputs[i]).witness_script is None,
        forall|i: int|
            0 <= i < c.outputs.len() ==> (#[trigger] c.outputs[i]).witness_script is None,
    ensures
        forall|i: int|
            0 <= i < psbt_info(c, testnet).inputs.len() ==> !(#[trigger] psbt_info(
                c,
                testnet,
            ).inputs[i]).shown().contains(Field::WitnessScript),
        forall|i: int|
            0 <= i < psbt_info(c, testnet).outputs.len() ==> !(#[trigger] psbt_info(
                c,
                testnet,
            ).outputs[i]).shown().contains(Field::WitnessScript),
{
    let info = psbt_info(c, testnet);
    assert forall|i: int| 0 <= i < info.inputs.len() implies !(#[trigger] info.inputs[i]).shown().contains(
        Field::WitnessScript,
    ) by {
        assert(c.inputs[i].witness_script is None);
        lemma_input_info_shows(c.inputs[i], testnet, Field::WitnessScript);
    }
    assert forall|i: int| 0 <= i < info.outputs.len() implies !(#[trigger] info.outputs[i]).shown().contains(
        Field::WitnessScript,
    ) by {
        assert(c.outputs[i].witness_script is None);
        lemma_output_info_shows(c.outputs[i], testnet, Field::WitnessScript);
    }
}

/// The key under which the document shows a field.
pub open spec fn field_name(field: Field) -> Seq<char> {
    match field {
        Field::NonWitnessUtxo => "non_witness_utxo"@,
        Field::WitnessUtxo => "witness_utxo"@,
        Field::PartialSigs => "partial_sigs"@,
        Field::SighashType => "sighash_type"@,
        Field::RedeemScript => "redeem_script"@,
        Field::WitnessScript => "witness_script"@,
        Field::HdKeypaths => "hd_keypaths"@,
        Field::FinalScriptSig => "final_script_sig"@,
        Field::FinalScriptWitness => "final_script_witness"@,
        Field::Unknown => "unknown"@,
    }
}

impl Field {
    /// The key under which the document shows the field.
    pub fn name(&self) -> (r: &'static str)
        ensures
            r@ == field_name(*self),
    {
        match self {
            Field::NonWitnessUtxo => "non_witness_utxo",
            Field::WitnessUtxo => "witness_utxo",
            Field::PartialSigs => "partial_sigs",
            Field::SighashType => "sighash_type",
            Field::RedeemScript => "redeem_script",
            Field::WitnessScript => "witness_script",
            Field::HdKeypaths => "hd_keypaths",
            Field::FinalScriptSig => "final_script_sig",
            Field::FinalScriptWitness => "final_script_witness",
            Field::Unknown => "unknown",
        }
    }
}

/// Hands a script of an output on, where there is one.
fn script_of(script: &Option<Vec<u8>>, testnet: bool) -> (r: Option<OutputScriptInfo>)
    ensures
        opt_script(r) == script_info(crate::model::opt_bytes(*script), testnet),
{
    match script {
        Some(s) => Some(OutputScriptInfo { hex: HexBytes(copy_bytes(s)), testnet }),
        None => None,
    }
}

/// Projects the key paths of a section.
fn paths_of(paths: &Vec<Entry>) -> (r: Vec<(HexBytes, HDPathInfo)>)
    ensures
        path_views(r@) == paths_info(entry_views(paths@)),
{
    let mut out: Vec<(HexBytes, HDPathInfo)> = Vec::new();
    let mut i: usize = 0;
    while i < paths.len()
        invariant
            i <= paths.len(),
            out@.len() == i,
            forall|k: int|
                0 <= k < i ==> (#[trigger] out@[k]).0@ == paths@[k].key@ && out@[k].1@ == (
                HDPathInfoView {
                    master_fingerprint: fingerprint_of(paths@[k].value@),
                    path: path_text(path_of(paths@[k].value@)),
                }),
        decreases paths.len() - i,
    {
        let record = &paths[i].value;
        let cut: usize = if record.len() < 4 {
            record.len()
        } else {
            4
        };
        let fingerprint = copy_bytes(vstd::slice::slice_subrange(record.as_slice(), 0, cut));
        let elements = read_path(record.as_slice());
        let info = HDPathInfo {
            master_fingerprint: HexBytes(fingerprint),
            path: string_derivation_path(elements.as_slice()),
        };
        out.push((HexBytes(copy_bytes(&paths[i].key)), info));
        i += 1;
    }
    proof {
        assert(path_views(out@) =~= paths_info(entry_views(paths@)));
    }
    out
}

impl PsbtGlobalInfo {
    /// Projects the global section.
    pub fn create(global: &Global, testnet: bool) -> (r: PsbtGlobalInfo)
        ensures
            r@ == global_info(global@, testnet),
    {
        PsbtGlobalInfo {
            unsigned_tx: TransactionInfo { raw: HexBytes(copy_bytes(&global.unsigned_tx)), testnet },
        }
    }
}

impl PsbtInputInfo {
    /// Projects an input section.
    pub fn create(input: &Input, testnet: bool) -> (r: PsbtInputInfo)
        ensures
            r@ == input_info(input@, testnet),
    {
        let mut partial_sigs: Vec<(HexBytes, HexBytes)> = Vec::new();
        let mut i: usize = 0;
        while i < input.partial_sigs.len()
            invariant
                i <= input.partial_sigs.len(),
                partial_sigs@.len() == i,
                forall|k: int|
                    0 <= k < i ==> (#[trigger] partial_sigs@[k]).0@ == input.partial_sigs@[k].key@
                        && partial_sigs@[k].1@ == input.partial_sigs@[k].value@,
            decreases input.partial_sigs.len() - i,
        {
            partial_sigs.push(
                (
                    HexBytes(copy_bytes(&input.partial_sigs[i].key)),
                    HexBytes(copy_bytes(&input.partial_sigs[i].value)),
                ),
            );
            i += 1;
        }
        let final_script_witness: Option<Vec<HexBytes>> = match &input.final_script_witness {
            None => None,
            Some(w) => {
                let mut items: Vec<HexBytes> = Vec::new();
                let mut j: usize = 0;
                while j < w.len()
                    invariant
                        j <= w.len(),
                        items@.len() == j,
                        forall|k: int| 0 <= k < j ==> (#[trigger] items@[k])@ == w@[k]@,
                    decreases w.len() - j,
                {
                    items.push(HexBytes(copy_bytes(&w[j])));
                    j += 1;
                }
                proof {
                    assert(hex_views(items@) =~= crate::model::stack_view(w@));
                }
                Some(items)
            },
        };
        let r = PsbtInputInfo {
            non_witness_utxo: match &input.non_witness_utxo {
                Some(tx) => Some(TransactionInfo { raw: HexBytes(copy_bytes(tx)), testnet }),
                None => None,
            },
            witness_utxo: match &input.witness_utxo {
                Some(o) => Some(
                    OutputInfo {
                        value: o.value,
                        script_pub_key: OutputScriptInfo {
                            hex: HexBytes(copy_bytes(&o.script_pubkey)),
                            testnet,
                        },
                    },
                ),
                None => None,
            },
            partial_sigs,
            sighash_type: match input.sighash_type {
                Some(t) => Some(string_sighashtype(t)),
                None => None,
            },
            redeem_script: script_of(&input.redeem_script, testnet),
            witness_script: script_of(&input.witness_script, testnet),
            hd_keypaths: paths_of(&input.hd_keypaths),
            final_script_sig: match &input.final_script_sig {
                Some(s) => Some(InputScriptInfo { hex: HexBytes(copy_bytes(s)) }),
                None => None,
            },
            final_script_witness,
        };
        proof {
            assert(r@.partial_sigs =~= input@.partial_sigs);
        }
        r
    }

    /// The fields that the document of the section shows, in their order.
    pub fn shown_fields(&self) -> (r: Vec<Field>)
        ensures
            r@ == self@.shown(),
    {
        let mut out: Vec<Field> = Vec::new();
        if self.non_witness_utxo.is_some() {
            out.push(Field::NonWitnessUtxo);
        }
        if self.witness_utxo.is_some() {
            out.push(Field::WitnessUtxo);
        }
        if self.partial_sigs.len() > 0 {
            out.push(Field::PartialSigs);
        }
        if self.sighash_type.is_some() {
            out.push(Field::SighashType);
        }
        if self.redeem_script.is_some() {
            out.push(Field::RedeemScript);
        }
        if self.witness_script.is_some() {
            out.push(Field::WitnessScript);
        }
        if self.hd_keypaths.len() > 0 {
            out.push(Field::HdKeypaths);
        }
        if self.final_script_sig.is_some() {
            out.push(Field::FinalScriptSig);
        }
        if self.final_script_witness.is_some() {
            out.push(Field::FinalScriptWitness);
        }
        out
    }
}

impl PsbtOutputInfo {
    /// Projects an output section.
    pub fn create(output: &Output, testnet: bool) -> (r: PsbtOutputInfo)
        ensures
            r@ == output_info(output@, testnet),
    {
        PsbtOutputInfo {
            redeem_script: script_of(&output.redeem_script, testnet),
            witness_script: script_of(&output.witness_script, testnet),
            hd_keypaths: paths_of(&output.hd_keypaths),
        }
    }

    /// The fields that the document of the section shows, in their order.
    pub fn shown_fields(&self) -> (r: Vec<Field>)
        ensures
            r@ == self@.shown(),
    {
        let mut out: Vec<Field> = Vec::new();
        if self.redeem_script.is_some() {
            out.push(Field::RedeemScript);
        }
        if self.witness_script.is_some() {
            out.push(Field::WitnessScript);
        }
        if self.hd_keypaths.len() > 0 {
            out.push(Field::HdKeypaths);
        }
        out
    }
}

impl PsbtInfo {
    /// Projects a container. Every container has a projection.
    pub fn create(psbt: &Psbt, testnet: bool) -> (r: PsbtInfo)
        ensures
            r@ == psbt_info(psbt@, testnet),
    {
        let mut inputs: Vec<PsbtInputInfo> = Vec::new();
        let mut i: usize = 0;
        while i < psbt.inputs.len()
            invariant
                i <= psbt.inputs.len(),
                inputs@.len() == i,
                forall|k: int|
                    0 <= k < i ==> (#[trigger] inputs@[k])@ == input_info(
                        psbt.inputs@[k]@,
                        testnet,
                    ),
            decreases psbt.inputs.len() - i,
        {
            inputs.push(PsbtInputInfo::create(&psbt.inputs[i], testnet));
            i += 1;
        }
        let mut outputs: Vec<PsbtOutputInfo> = Vec::new();
        let mut j: usize = 0;
        while j < psbt.outputs.len()
            invariant
                j <= psbt.outputs.len(),
                outputs@.len() == j,
                forall|k: int|
                    0 <= k < j ==> (#[trigger] outputs@[k])@ == output_info(
                        psbt.outputs@[k]@,
                        testnet,
                    ),
            decreases psbt.outputs.len() - j,
        {
            outputs.push(PsbtOutputInfo::create(&psbt.outputs[j], testnet));
            j += 1;
        }
        let r = PsbtInfo { global: PsbtGlobalInfo::create(&psbt.global, testnet), inputs, outputs };
        proof {
            assert(r@.inputs =~= psbt_info(psbt@, testnet).inputs);
            assert(r@.outputs =~= psbt_info(psbt@, testnet).outputs);
        }
        r
    }
}

} // verus!
