//! Why decoding a container, or combining several, can fail.

use vstd::prelude::*;

verus! {

/// Why a byte string is not a container.
#[derive(Clone, Copy, Debug, PartialEq, Eq, Structural)]
pub enum DecodeError {
    /// The bytes do not start with the format's five magic bytes.
    BadMagic,
    /// The bytes end inside a length prefix, a key or a value.
    Truncated,
    /// A length prefix is written in more bytes than its value needs.
    NonMinimalLength,
    /// A key occurs twice within one map.
    DuplicateKey,
    /// A key of a known type carries key data of the wrong length.
    InvalidKey,
    /// A value of a known type has the wrong length or shape.
    InvalidValue,
    /// A transaction does not decode, or the unsigned transaction carries
    /// signature scripts or witnesses.
    InvalidTransaction,
    /// The global map holds no unsigned transaction.
    MissingTransaction,
    /// Bytes follow the last map.
    TrailingBytes,
}

/// The three kinds of section of a container.
#[derive(Clone, Copy, Debug, PartialEq, Eq, Structural)]
pub enum Section {
    Global,
    Input,
    Output,
}

/// The fields of a section.
#[derive(Clone, Copy, Debug, PartialEq, Eq, Structural)]
pub enum Field {
    NonWitnessUtxo,
    WitnessUtxo,
    PartialSigs,
    SighashType,
    RedeemScript,
    WitnessScript,
    HdKeypaths,
    FinalScriptSig,
    FinalScriptWitness,
    Unknown,
}

/// Why containers cannot be combined.
#[derive(Clone, Copy, Debug, PartialEq, Eq, Structural)]
pub enum MergeError {
    /// The container at `index` describes another unsigned transaction than
    /// the first one.
    Incompatible { index: usize },
    /// Two containers disagree on `field` of the section `section` at `index`.
    FieldConflict { section: Section, index: usize, field: Field },
}

} // verus!
