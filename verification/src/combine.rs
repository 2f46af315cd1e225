//! The two operations on encoded containers: decoding one into its display
//! document, and merging several into one encoded container.

use vstd::prelude::*;
use crate::codec::{decoded, encoded};
use crate::error::{DecodeError, MergeError};
use crate::merge::{merge, merged, psbt_views};
use crate::model::{stack_view, Psbt, PsbtView};
use crate::psbt::{psbt_info, PsbtInfo};

verus! {

/// Why encoded containers cannot be merged.
#[derive(Clone, Copy, Debug, PartialEq, Eq, Structural)]
pub enum CombineError {
    /// There is nothing to merge.
    NoInput,
    /// The byte string at `index` is not a container.
    Decode { index: usize, error: DecodeError },
    /// The containers do not merge.
    Merge(MergeError),
}

/// The first byte string from `from` on that is not a container.
pub open spec fn first_undecodable(blobs: Seq<Seq<u8>>, from: int) -> Option<int>
    decreases blobs.len() - from,
{
    if from < 0 || from >= blobs.len() {
        None
    } else if decoded(blobs[from]) is Err {
        Some(from)
    } else {
        first_undecodable(blobs, from + 1)
    }
}

/// The container that a byte string is; only asked of one that is a
/// container.
pub open spec fn container_of(blob: Seq<u8>) -> PsbtView {
    match decoded(blob) {
        Ok(c) => c,
        Err(_) => arbitrary(),
    }
}

/// Why a byte string is not a container; only asked of one that is none.
pub open spec fn refusal_of(blob: Seq<u8>) -> DecodeError {
    match decoded(blob) {
        Ok(_) => arbitrary(),
        Err(e) => e,
    }
}

/// Encoded containers merged into one encoded container. The first byte
/// string that is not a container decides the error; where all are
/// containers, they are merged and the result is encoded.
pub open spec fn combined(blobs: Seq<Seq<u8>>) -> Result<Seq<u8>, CombineError> {
    if blobs.len() == 0 {
        Err(CombineError::NoInput)
    } else {
        match first_undecodable(blobs, 0) {
            Some(k) => Err(CombineError::Decode { index: k as usize, error: refusal_of(blobs[k]) }),
            None => match merged(Seq::new(blobs.len(), |i: int| container_of(blobs[i]))) {
                Err(e) => Err(CombineError::Merge(e)),
                Ok(c) => Ok(encoded(c)),
            },
        }
    }
}

/// Decodes a container and projects it into its display document.
pub fn decode_info(bytes: &[u8], testnet: bool) -> (r: Result<PsbtInfo, DecodeError>)
    ensures
        match r {
            Ok(info) => decoded(bytes@) matches Ok(c) && info@ == psbt_info(c, testnet),
            Err(e) => decoded(bytes@) == Err::<PsbtView, DecodeError>(e),
        },
{
    match Psbt::decode(bytes) {
        Err(e) => Err(e),
        Ok(psbt) => Ok(PsbtInfo::create(&psbt, testnet)),
    }
}

/// Decodes each byte string, merges the containers and encodes the result.
/// Nothing is produced unless every step succeeds.
pub fn merge_encoded(blobs: &Vec<Vec<u8>>) -> (r: Result<Vec<u8>, CombineError>)
    ensures
        match r {
            Ok(bytes) => combined(stack_view(blobs@)) == Ok::<Seq<u8>, CombineError>(bytes@),
            Err(e) => combined(stack_view(blobs@)) == Err::<Seq<u8>, CombineError>(e),
        },
{
    let ghost all = stack_view(blobs@);
    if blobs.len() == 0 {
        return Err(CombineError::NoInput);
    }
    let mut containers: Vec<Psbt> = Vec::new();
    let mut i: usize = 0;
    while i < blobs.len()
        invariant
            i <= blobs.len(),
            all == stack_view(blobs@),
            containers@.len() == i,
            first_undecodable(all, 0) == first_undecodable(all, i as int),
            forall|k: int|
                0 <= k < i ==> (#[trigger] containers@[k])@ == container_of(all[k])
                    && containers@[k]@.wf(),
        decreases blobs.len() - i,
    {
        proof {
            assert(all[i as int] == blobs@[i as int]@);
        }
        match Psbt::decode(&blobs[i]) {
            Err(error) => {
                return Err(CombineError::Decode { index: i, error });
            },
            Ok(psbt) => {
                containers.push(psbt);
            },
        }
        i += 1;
    }
    proof {
        assert(psbt_views(containers@) =~= Seq::new(all.len(), |i: int| container_of(all[i])));
    }
    match merge(&containers) {
        Err(e) => Err(CombineError::Merge(e)),
        Ok(m) => Ok(m.encode()),
    }
}

/// The bytes that an argument spells where it is hexadecimal text; nothing
/// where it is not, and the argument then names a file.
pub fn inline_hex(flag: &str) -> (r: Option<Vec<u8>>)
    ensures
        match r {
            Some(bytes) => crate::text::is_hex_text(flag@) && bytes@ == crate::text::hex_bytes(flag@),
            None => !crate::text::is_hex_text(flag@),
        },
{
    crate::text::hex_decode(flag)
}

} // verus!
