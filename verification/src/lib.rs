//! Partially signed transactions: a lossless codec for the container format,
//! a strict combiner for containers that describe the same transaction, and a
//! projection into a display document.

use vstd::prelude::*;
use vstd::std_specs::convert::FromSpecImpl;

pub mod bytes;
pub mod codec;
pub mod combine;
pub mod compact;
pub mod error;
pub mod fields;
pub mod global;
pub mod input;
pub mod keyed;
pub mod keysource;
pub mod merge;
pub mod model;
pub mod output;
pub mod psbt;
pub mod text;
pub mod tx;
pub mod values;
pub mod wire;

verus! {

/// A byte string that is shown as lowercase hexadecimal text.
#[derive(Clone, PartialEq, Eq, Debug, Hash)]
pub struct HexBytes(pub Vec<u8>);

impl View for HexBytes {
    type V = Seq<u8>;

    open spec fn view(&self) -> Seq<u8> {
        self.0@
    }
}

impl From<Vec<u8>> for HexBytes {
    fn from(vec: Vec<u8>) -> (r: HexBytes) {
        HexBytes(vec)
    }
}

impl FromSpecImpl<Vec<u8>> for HexBytes {
    open spec fn obeys_from_spec() -> bool {
        true
    }

    open spec fn from_spec(vec: Vec<u8>) -> HexBytes {
        HexBytes(vec)
    }
}

impl From<&[u8]> for HexBytes {
    fn from(slice: &[u8]) -> (r: HexBytes)
        ensures
            r@ == slice@,
    {
        HexBytes(crate::bytes::copy_bytes(slice))
    }
}

impl FromSpecImpl<&[u8]> for HexBytes {
    /// A spec function cannot make the copy of the bytes: what `from` gives
    /// is stated on `from` itself.
    open spec fn obeys_from_spec() -> bool {
        false
    }

    open spec fn from_spec(slice: &[u8]) -> HexBytes {
        vstd::pervasive::arbitrary()
    }
}

impl HexBytes {
    /// The bytes as lowercase hexadecimal text.
    pub fn to_hex(&self) -> (r: String)
        ensures
            r@ == crate::text::hex_text(self@),
    {
        crate::text::hex_encode(&self.0)
    }

    /// The bytes that hexadecimal text spells; nothing where the text is not
    /// an even number of hexadecimal digits.
    pub fn from_hex(text: &str) -> (r: Option<HexBytes>)
        ensures
            match r {
                Some(b) => crate::text::is_hex_text(text@) && b@ == crate::text::hex_bytes(text@),
                None => !crate::text::is_hex_text(text@),
            },
    {
        match crate::text::hex_decode(text) {
            Some(bytes) => Some(HexBytes(bytes)),
            None => None,
        }
    }
}

} // verus!
