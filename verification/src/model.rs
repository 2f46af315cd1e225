//! The container in memory: one global section, one section for each input of
//! the unsigned transaction and one for each of its outputs.
//!
//! Every keyed collection (partial signatures, key paths, fields of unknown
//! type) is held in ascending order of its keys, so that equal containers are
//! equal field for field.

use vstd::prelude::*;
use crate::keyed::sorted;
use crate::tx::{is_transaction, unsigned_counts};
use crate::values::{stack_fits, txout_bytes, witness_bytes};
use crate::wire::{entry_views, Entry};

verus! {

/// Which parts of the transaction a signature commits to.
#[derive(Clone, Copy, Debug, PartialEq, Eq, Structural)]
pub enum SigHashType {
    All,
    NoOutputs,
    Single,
    AllPlusAnyoneCanPay,
    NoOutputsPlusAnyoneCanPay,
    SinglePlusAnyoneCanPay,
}

/// A transaction output: an amount and the script that guards it.
#[derive(Clone, Debug, PartialEq, Eq)]
pub struct TxOut {
    pub value: u64,
    pub script_pubkey: Vec<u8>,
}

/// A transaction output as a mathematical value.
pub struct TxOutView {
    pub value: u64,
    pub script_pubkey: Seq<u8>,
}

impl View for TxOut {
    type V = TxOutView;

    open spec fn view(&self) -> TxOutView {
        TxOutView { value: self.value, script_pubkey: self.script_pubkey@ }
    }
}

/// The signing state of one input. The key of a partial signature, and of a
/// key path, is a public key of 33 or 65 bytes. The value of a key path is a
/// derivation record on the wire: the master key's fingerprint in four bytes,
/// then each path element in four bytes; `KeySource` reads and writes it. The
/// key of an unknown field is the whole key of the wire, type byte first.
#[derive(Clone, Debug, PartialEq, Eq)]
pub struct Input {
    pub non_witness_utxo: Option<Vec<u8>>,
    pub witness_utxo: Option<TxOut>,
    pub partial_sigs: Vec<Entry>,
    pub sighash_type: Option<SigHashType>,
    pub redeem_script: Option<Vec<u8>>,
    pub witness_script: Option<Vec<u8>>,
    pub hd_keypaths: Vec<Entry>,
    pub final_script_sig: Option<Vec<u8>>,
    pub final_script_witness: Option<Vec<Vec<u8>>>,
    pub unknown: Vec<Entry>,
}

/// An input section as a mathematical value: each byte string a sequence,
/// each keyed collection a sequence of pairs of key and value.
pub struct InputView {
    pub non_witness_utxo: Option<Seq<u8>>,
    pub witness_utxo: Option<TxOutView>,
    pub partial_sigs: Seq<(Seq<u8>, Seq<u8>)>,
    pub sighash_type: Option<SigHashType>,
    pub redeem_script: Option<Seq<u8>>,
    pub witness_script: Option<Seq<u8>>,
    pub hd_keypaths: Seq<(Seq<u8>, Seq<u8>)>,
    pub final_script_sig: Option<Seq<u8>>,
    pub final_script_witness: Option<Seq<Seq<u8>>>,
    pub unknown: Seq<(Seq<u8>, Seq<u8>)>,
}

/// What is known of one output of the transaction.
#[derive(Clone, Debug, PartialEq, Eq)]
pub struct Output {
    pub redeem_script: Option<Vec<u8>>,
    pub witness_script: Option<Vec<u8>>,
    pub hd_keypaths: Vec<Entry>,
    pub unknown: Vec<Entry>,
}

/// An output section as a mathematical value.
pub struct OutputView {
    pub redeem_script: Option<Seq<u8>>,
    pub witness_script: Option<Seq<u8>>,
    pub hd_keypaths: Seq<(Seq<u8>, Seq<u8>)>,
    pub unknown: Seq<(Seq<u8>, Seq<u8>)>,
}

/// The global section: the unsigned transaction, serialized.
#[derive(Clone, Debug, PartialEq, Eq)]
pub struct Global {
    pub unsigned_tx: Vec<u8>,
    pub unknown: Vec<Entry>,
}

/// The global section as a mathematical value.
pub struct GlobalView {
    pub unsigned_tx: Seq<u8>,
    pub unknown: Seq<(Seq<u8>, Seq<u8>)>,
}

/// A partially signed transaction.
#[derive(Clone, Debug, PartialEq, Eq)]
pub struct Psbt {
    pub global: Global,
    pub inputs: Vec<Input>,
    pub outputs: Vec<Output>,
}

/// A container as a mathematical value.
pub struct PsbtView {
    pub global: GlobalView,
    pub inputs: Seq<InputView>,
    pub outputs: Seq<OutputView>,
}

/// The bytes of an optional byte string.
pub open spec fn opt_bytes(o: Option<Vec<u8>>) -> Option<Seq<u8>> {
    match o {
        Some(b) => Some(b@),
        None => None,
    }
}

/// The items of a witness stack.
pub open spec fn stack_view(w: Seq<Vec<u8>>) -> Seq<Seq<u8>> {
    Seq::new(w.len(), |i: int| w[i]@)
}

impl View for Input {
    type V = InputView;

    open spec fn view(&self) -> InputView {
        InputView {
            non_witness_utxo: opt_bytes(self.non_witness_utxo),
            witness_utxo: match self.witness_utxo {
                Some(o) => Some(o@),
                None => None,
            },
            partial_sigs: entry_views(self.partial_sigs@),
            sighash_type: self.sighash_type,
            redeem_script: opt_bytes(self.redeem_script),
            witness_script: opt_bytes(self.witness_script),
            hd_keypaths: entry_views(self.hd_keypaths@),
            final_script_sig: opt_bytes(self.final_script_sig),
            final_script_witness: match self.final_script_witness {
                Some(w) => Some(stack_view(w@)),
                None => None,
            },
            unknown: entry_views(self.unknown@),
        }
    }
}

impl View for Output {
    type V = OutputView;

    open spec fn view(&self) -> OutputView {
        OutputView {
            redeem_script: opt_bytes(self.redeem_script),
            witness_script: opt_bytes(self.witness_script),
            hd_keypaths: entry_views(self.hd_keypaths@),
            unknown: entry_views(self.unknown@),
        }
    }
}

impl View for Global {
    type V = GlobalView;

    open spec fn view(&self) -> GlobalView {
        GlobalView { unsigned_tx: self.unsigned_tx@, unknown: entry_views(self.unknown@) }
    }
}

/// The views of a sequence of input sections.
pub open spec fn input_views(s: Seq<Input>) -> Seq<InputView> {
    Seq::new(s.len(), |i: int| s[i]@)
}

/// The views of a sequence of output sections.
pub open spec fn output_views(s: Seq<Output>) -> Seq<OutputView> {
    Seq::new(s.len(), |i: int| s[i]@)
}

impl View for Psbt {
    type V = PsbtView;

    open spec fn view(&self) -> PsbtView {
        PsbtView {
            global: self.global@,
            inputs: input_views(self.inputs@),
            outputs: output_views(self.outputs@),
        }
    }
}

/// A public key in its serialized form: 33 bytes compressed, 65 bytes not.
pub open spec fn is_pubkey(key: Seq<u8>) -> bool {
    key.len() == 33 || key.len() == 65
}

/// A derivation record on the wire: a fingerprint of four bytes and path
/// elements of four bytes each.
pub open spec fn is_key_source(value: Seq<u8>) -> bool {
    value.len() >= 4 && value.len() % 4 == 0
}

/// Every key is a public key.
pub open spec fn pubkey_keys(m: Seq<(Seq<u8>, Seq<u8>)>) -> bool {
    forall|i: int| 0 <= i < m.len() ==> is_pubkey((#[trigger] m[i]).0)
}

/// Every value is a derivation record.
pub open spec fn key_source_values(m: Seq<(Seq<u8>, Seq<u8>)>) -> bool {
    forall|i: int| 0 <= i < m.len() ==> is_key_source((#[trigger] m[i]).1)
}

/// Every key starts with a type byte above `last_known`.
pub open spec fn unknown_keys(m: Seq<(Seq<u8>, Seq<u8>)>, last_known: u8) -> bool {
    forall|i: int| 0 <= i < m.len() ==> (#[trigger] m[i]).0.len() > 0 && m[i].0[0] > last_known
}

/// Every key and every value is short enough for a size prefix.
pub open spec fn sized(m: Seq<(Seq<u8>, Seq<u8>)>) -> bool {
    forall|i: int|
        0 <= i < m.len() ==> (#[trigger] m[i]).0.len() <= u64::MAX && m[i].1.len() <= u64::MAX
}

/// The byte string, where there is one, is short enough for a size prefix.
pub open spec fn opt_sized(o: Option<Seq<u8>>) -> bool {
    o matches Some(b) ==> b.len() <= u64::MAX
}

/// The last type byte that an input section knows.
pub const INPUT_LAST_KNOWN: u8 = 0x08;

/// The last type byte that an output section knows.
pub const OUTPUT_LAST_KNOWN: u8 = 0x02;

/// The last type byte that the global section knows.
pub const GLOBAL_LAST_KNOWN: u8 = 0x00;

impl InputView {
    /// A section with no field set.
    pub open spec fn empty() -> InputView {
        InputView {
            non_witness_utxo: None,
            witness_utxo: None,
            partial_sigs: Seq::empty(),
            sighash_type: None,
            redeem_script: None,
            witness_script: None,
            hd_keypaths: Seq::empty(),
            final_script_sig: None,
            final_script_witness: None,
            unknown: Seq::empty(),
        }
    }

    /// The section is well formed: a previous transaction that is present
    /// decodes, the keyed collections are sorted and hold keys and values of
    /// their kinds, and every field is short enough for the size prefixes of
    /// the wire.
    pub open spec fn wf(self) -> bool {
        &&& self.non_witness_utxo matches Some(tx) ==> is_transaction(tx)
        &&& opt_sized(self.non_witness_utxo)
        &&& self.witness_utxo matches Some(o) ==> o.script_pubkey.len() <= u64::MAX
            && txout_bytes(o).len() <= u64::MAX
        &&& sorted(self.partial_sigs)
        &&& pubkey_keys(self.partial_sigs)
        &&& sized(self.partial_sigs)
        &&& opt_sized(self.redeem_script)
        &&& opt_sized(self.witness_script)
        &&& sorted(self.hd_keypaths)
        &&& pubkey_keys(self.hd_keypaths)
        &&& key_source_values(self.hd_keypaths)
        &&& sized(self.hd_keypaths)
        &&& opt_sized(self.final_script_sig)
        &&& self.final_script_witness matches Some(w) ==> stack_fits(w) && witness_bytes(w).len()
            <= u64::MAX
        &&& sorted(self.unknown)
        &&& unknown_keys(self.unknown, INPUT_LAST_KNOWN)
        &&& sized(self.unknown)
    }
}

impl OutputView {
    /// A section with no field set.
    pub open spec fn empty() -> OutputView {
        OutputView {
            redeem_script: None,
            witness_script: None,
            hd_keypaths: Seq::empty(),
            unknown: Seq::empty(),
        }
    }

    /// The section is well formed: the keyed collections are sorted and hold
    /// keys and values of their kinds, and every field is short enough for
    /// the size prefixes of the wire.
    pub open spec fn wf(self) -> bool {
        &&& opt_sized(self.redeem_script)
        &&& opt_sized(self.witness_script)
        &&& sorted(self.hd_keypaths)
        &&& pubkey_keys(self.hd_keypaths)
        &&& key_source_values(self.hd_keypaths)
        &&& sized(self.hd_keypaths)
        &&& sorted(self.unknown)
        &&& unknown_keys(self.unknown, OUTPUT_LAST_KNOWN)
        &&& sized(self.unknown)
    }
}

impl GlobalView {
    /// The section is well formed: the transaction is an unsigned one, the
    /// unknown fields are sorted, and every field is short enough for the
    /// size prefixes of the wire.
    pub open spec fn wf(self) -> bool {
        &&& unsigned_counts(self.unsigned_tx) is Some
        &&& self.unsigned_tx.len() <= u64::MAX
        &&& sorted(self.unknown)
        &&& unknown_keys(self.unknown, GLOBAL_LAST_KNOWN)
        &&& sized(self.unknown)
    }
}

impl PsbtView {
    /// The container is well formed: each section is, and there is one input
    /// section for each input of the unsigned transaction and one output
    /// section for each of its outputs.
    pub open spec fn wf(self) -> bool {
        &&& self.global.wf()
        &&& unsigned_counts(self.global.unsigned_tx) == Some((self.inputs.len(), self.outputs.len()))
        &&& forall|i: int| 0 <= i < self.inputs.len() ==> (#[trigger] self.inputs[i]).wf()
        &&& forall|i: int| 0 <= i < self.outputs.len() ==> (#[trigger] self.outputs[i]).wf()
    }
}

impl Input {
    /// A section with no field set.
    pub fn new() -> (r: Input)
        ensures
            r@ == InputView::empty(),
            r@.wf(),
    {
        let r = Input {
            non_witness_utxo: None,
            witness_utxo: None,
            partial_sigs: Vec::new(),
            sighash_type: None,
            redeem_script: None,
            witness_script: None,
            hd_keypaths: Vec::new(),
            final_script_sig: None,
            final_script_witness: None,
            unknown: Vec::new(),
        };
        proof {
            assert(r@.partial_sigs =~= Seq::empty());
            assert(r@.hd_keypaths =~= Seq::empty());
            assert(r@.unknown =~= Seq::empty());
        }
        r
    }
}

impl Output {
    /// A section with no field set.
    pub fn new() -> (r: Output)
        ensures
            r@ == OutputView::empty(),
            r@.wf(),
    {
        let r = Output {
            redeem_script: None,
            witness_script: None,
            hd_keypaths: Vec::new(),
            unknown: Vec::new(),
        };
        proof {
            assert(r@.hd_keypaths =~= Seq::empty());
            assert(r@.unknown =~= Seq::empty());
        }
        r
    }
}

} // verus!
