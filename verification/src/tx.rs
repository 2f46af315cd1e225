//! Transactions inside a container. The container format carries them as
//! serialized bytes; whether such bytes are a transaction, and how many inputs
//! and outputs it has, is decided by the `bitcoin` crate's decoder.

use vstd::prelude::*;
use crate::error::DecodeError;

verus! {

/// What `bitcoin::consensus::deserialize::<bitcoin::Transaction>` makes of
/// `bytes`: nothing where it reports an error; else, for each input of the
/// transaction, the length of its signature script and the number of items of
/// its witness, and the number of the transaction's outputs.
pub uninterp spec fn tx_layout(bytes: Seq<u8>) -> Option<(Seq<(usize, usize)>, usize)>;

/// Runs `bitcoin::consensus::deserialize::<bitcoin::Transaction>` on `bytes`,
/// which must be consumed to the last byte. Trusted: the result is `tx_layout`
/// of the bytes, that is, the decoder's answer depends on the bytes alone.
#[verifier::external_body]
fn transaction_layout(bytes: &[u8]) -> (r: Option<(Vec<(usize, usize)>, usize)>)
    ensures
        match r {
            Some((inputs, outputs)) => tx_layout(bytes@) == Some((inputs@, outputs)),
            None => tx_layout(bytes@) is None,
        },
{
    match bitcoin::consensus::deserialize::<bitcoin::Transaction>(bytes) {
        Ok(tx) => Some(
            (
                tx.input.iter().map(|i| (i.script_sig.len(), i.witness.len())).collect(),
                tx.output.len(),
            ),
        ),
        Err(_) => None,
    }
}

/// The bytes are a serialized transaction.
pub open spec fn is_transaction(bytes: Seq<u8>) -> bool {
    tx_layout(bytes) is Some
}

/// No input carries a signature script or a witness.
pub open spec fn all_unsigned(inputs: Seq<(usize, usize)>) -> bool {
    forall|i: int| 0 <= i < inputs.len() ==> #[trigger] inputs[i] == (0usize, 0usize)
}

/// The numbers of inputs and outputs that a layout shows, where it is that of
/// an unsigned transaction.
pub open spec fn layout_counts(layout: Option<(Seq<(usize, usize)>, usize)>) -> Option<(nat, nat)> {
    match layout {
        Some((inputs, outputs)) => if all_unsigned(inputs) {
            Some((inputs.len(), outputs as nat))
        } else {
            None
        },
        None => None,
    }
}

/// The numbers of inputs and outputs of an unsigned transaction: one that
/// decodes and whose inputs carry neither signature scripts nor witnesses.
pub open spec fn unsigned_counts(bytes: Seq<u8>) -> Option<(nat, nat)> {
    layout_counts(tx_layout(bytes))
}

/// Whether the bytes are a serialized transaction.
pub fn check_transaction(bytes: &[u8]) -> (r: bool)
    ensures
        r == is_transaction(bytes@),
{
    transaction_layout(bytes).is_some()
}

/// Whether no input of a layout carries a signature script or a witness.
pub fn no_signatures(inputs: &Vec<(usize, usize)>) -> (r: bool)
    ensures
        r == all_unsigned(inputs@),
{
    let mut i: usize = 0;
    while i < inputs.len()
        invariant
            i <= inputs.len(),
            forall|j: int| 0 <= j < i ==> #[trigger] inputs@[j] == (0usize, 0usize),
        decreases inputs.len() - i,
    {
        if inputs[i].0 != 0 || inputs[i].1 != 0 {
            proof {
                assert(inputs@[i as int] != (0usize, 0usize));
            }
            return false;
        }
        i += 1;
    }
    true
}

/// Counts the inputs and outputs of a layout that the decoder gave, where it
/// is that of an unsigned transaction.
pub fn counts_of_layout(inputs: &Vec<(usize, usize)>, outputs: usize) -> (r: Option<(usize, usize)>)
    ensures
        match r {
            Some((n_in, n_out)) => layout_counts(Some((inputs@, outputs))) == Some(
                (n_in as nat, n_out as nat),
            ),
            None => layout_counts(Some((inputs@, outputs))) is None,
        },
{
    if no_signatures(inputs) {
        Some((inputs.len(), outputs))
    } else {
        None
    }
}

/// Decodes the bytes as an unsigned transaction and counts its inputs and
/// outputs.
pub fn count_unsigned(bytes: &[u8]) -> (r: Result<(usize, usize), DecodeError>)
    ensures
        match r {
            Ok((n_in, n_out)) => unsigned_counts(bytes@) == Some((n_in as nat, n_out as nat)),
            Err(e) => e == DecodeError::InvalidTransaction && unsigned_counts(bytes@) is None,
        },
{
    match transaction_layout(bytes) {
        None => Err(DecodeError::InvalidTransaction),
        Some((inputs, outputs)) => match counts_of_layout(&inputs, outputs) {
            Some(counts) => Ok(counts),
            None => Err(DecodeError::InvalidTransaction),
        },
    }
}

} // verus!
