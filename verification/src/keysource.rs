//! Derivation records: where a public key comes from. A record holds the
//! fingerprint of the master key in four bytes, then the elements of the
//! derivation path in four bytes each.

use vstd::prelude::*;
use crate::bytes::append_bytes;
use crate::compact::{le32, le32_bytes, lemma_le32_round_trip, read_le32, write_le32};
use crate::model::is_key_source;

verus! {

/// One element of a derivation path.
#[derive(Clone, Copy, Debug, PartialEq, Eq, Structural)]
pub enum ChildNumber {
    Normal { index: u32 },
    Hardened { index: u32 },
}

/// The path element that a number of 32 bits stands for: hardened where the
/// highest bit is set, with the other bits as its index.
pub open spec fn child_number(n: nat) -> ChildNumber {
    if n >= 0x8000_0000 {
        ChildNumber::Hardened { index: (n - 0x8000_0000) as u32 }
    } else {
        ChildNumber::Normal { index: n as u32 }
    }
}

/// The fingerprint of a derivation record: its first four bytes.
pub open spec fn fingerprint_of(record: Seq<u8>) -> Seq<u8> {
    record.take(if record.len() < 4 {
        record.len() as int
    } else {
        4
    })
}

/// The path of a derivation record: one element for each four bytes behind
/// the fingerprint.
pub open spec fn path_of(record: Seq<u8>) -> Seq<ChildNumber> {
    Seq::new(
        if record.len() < 4 {
            0
        } else {
            ((record.len() - 4) / 4) as nat
        },
        |i: int| child_number(le32(record.skip(4 + 4 * i))),
    )
}

/// The path element that a number stands for.
pub fn child_of(n: u32) -> (r: ChildNumber)
    ensures
        r == child_number(n as nat),
{
    if n >= 0x8000_0000 {
        ChildNumber::Hardened { index: n - 0x8000_0000 }
    } else {
        ChildNumber::Normal { index: n }
    }
}

/// Reads the path of a derivation record.
pub fn read_path(record: &[u8]) -> (r: Vec<ChildNumber>)
    ensures
        r@ == path_of(record@),
{
    let mut path: Vec<ChildNumber> = Vec::new();
    if record.len() < 4 {
        proof {
            assert(path@ =~= path_of(record@));
        }
        return path;
    }
    let count: usize = (record.len() - 4) / 4;
    let mut i: usize = 0;
    while i < count
        invariant
            i <= count,
            record.len() >= 4,
            count == (record.len() - 4) / 4,
            path@.len() == i,
            forall|k: int| 0 <= k < i ==> path@[k] == child_number(le32(record@.skip(4 + 4 * k))),
        decreases count - i,
    {
        let n: u32 = read_le32(record, 4 + 4 * i);
        path.push(child_of(n));
        i += 1;
    }
    proof {
        assert(path@ =~= path_of(record@));
    }
    path
}

/// The number of 32 bits that stands for a path element.
pub open spec fn number_of(c: ChildNumber) -> nat {
    match c {
        ChildNumber::Normal { index } => index as nat,
        ChildNumber::Hardened { index } => if index < 0x8000_0000 {
            (index + 0x8000_0000) as nat
        } else {
            index as nat
        },
    }
}

impl ChildNumber {
    /// The index leaves the highest bit free.
    pub open spec fn valid(self) -> bool {
        match self {
            ChildNumber::Normal { index } => index < 0x8000_0000,
            ChildNumber::Hardened { index } => index < 0x8000_0000,
        }
    }
}

/// The elements of a path on the wire, four bytes each.
pub open spec fn path_bytes(path: Seq<ChildNumber>) -> Seq<u8>
    decreases path.len(),
{
    if path.len() == 0 {
        Seq::empty()
    } else {
        path_bytes(path.drop_last()) + le32_bytes(number_of(path.last()))
    }
}

/// A derivation record on the wire.
pub open spec fn record_bytes(fingerprint: Seq<u8>, path: Seq<ChildNumber>) -> Seq<u8> {
    fingerprint + path_bytes(path)
}

proof fn lemma_path_bytes_at(path: Seq<ChildNumber>, i: int)
    requires
        0 <= i < path.len(),
    ensures
        path_bytes(path).len() == 4 * path.len(),
        le32(path_bytes(path).skip(4 * i)) == number_of(path[i]),
    decreases path.len(),
{
    let front = path.drop_last();
    let last = le32_bytes(number_of(path.last()));
    lemma_path_bytes_len(front);
    if i == path.len() - 1 {
        assert(path_bytes(path).skip(4 * i) =~= last + Seq::<u8>::empty());
        lemma_number_fits(path.last());
        lemma_le32_round_trip(number_of(path.last()), Seq::empty());
    } else {
        lemma_path_bytes_at(front, i);
        let tail = path_bytes(front).skip(4 * i);
        assert(path_bytes(path).skip(4 * i) =~= tail + last);
        assert(front[i] == path[i]);
        assert(le32(tail + last) == le32(tail));
    }
}

proof fn lemma_path_bytes_len(path: Seq<ChildNumber>)
    ensures
        path_bytes(path).len() == 4 * path.len(),
    decreases path.len(),
{
    if path.len() > 0 {
        lemma_path_bytes_len(path.drop_last());
    }
}

proof fn lemma_number_fits(c: ChildNumber)
    ensures
        number_of(c) < 4294967296,
        c.valid() ==> child_number(number_of(c)) == c,
{
}

/// Reading back a derivation record gives its fingerprint and its path.
pub proof fn lemma_record_round_trip(fingerprint: Seq<u8>, path: Seq<ChildNumber>)
    requires
        fingerprint.len() == 4,
        forall|i: int| 0 <= i < path.len() ==> (#[trigger] path[i]).valid(),
    ensures
        is_key_source(record_bytes(fingerprint, path)),
        fingerprint_of(record_bytes(fingerprint, path)) == fingerprint,
        path_of(record_bytes(fingerprint, path)) == path,
{
    let record = record_bytes(fingerprint, path);
    lemma_path_bytes_len(path);
    assert(fingerprint_of(record) =~= fingerprint);
    assert(path_of(record).len() == path.len());
    assert forall|i: int| 0 <= i < path.len() implies path_of(record)[i] == path[i] by {
        lemma_path_bytes_at(path, i);
        lemma_number_fits(path[i]);
        assert(record.skip(4 + 4 * i) =~= path_bytes(path).skip(4 * i));
    }
    assert(path_of(record) =~= path);
}

/// The number that stands for a path element.
pub fn number_of_child(c: ChildNumber) -> (r: u32)
    ensures
        r == number_of(c),
{
    match c {
        ChildNumber::Normal { index } => index,
        ChildNumber::Hardened { index } => if index < 0x8000_0000 {
            index + 0x8000_0000
        } else {
            index
        },
    }
}

/// Where a public key comes from: the fingerprint of the master key and the
/// derivation path.
#[derive(Clone, Debug, PartialEq, Eq)]
pub struct KeySource {
    pub fingerprint: [u8; 4],
    pub path: Vec<ChildNumber>,
}

impl KeySource {
    /// Reads a derivation record; nothing where the bytes are none.
    pub fn from_record(record: &[u8]) -> (r: Option<KeySource>)
        ensures
            match r {
                Some(k) => is_key_source(record@) && k.fingerprint@ == fingerprint_of(record@)
                    && k.path@ == path_of(record@),
                None => !is_key_source(record@),
            },
    {
        if record.len() < 4 || record.len() % 4 != 0 {
            return None;
        }
        let fingerprint: [u8; 4] = [record[0], record[1], record[2], record[3]];
        proof {
            assert(fingerprint@ =~= fingerprint_of(record@));
        }
        Some(KeySource { fingerprint, path: read_path(record) })
    }

    /// Writes the derivation record.
    pub fn to_record(&self) -> (r: Vec<u8>)
        ensures
            r@ == record_bytes(self.fingerprint@, self.path@),
            is_key_source(r@),
    {
        let mut out: Vec<u8> = Vec::new();
        append_bytes(&mut out, self.fingerprint.as_slice());
        let mut i: usize = 0;
        proof {
            assert(self.path@.take(0) =~= Seq::empty());
            assert(out@ =~= record_bytes(self.fingerprint@, self.path@.take(0)));
        }
        while i < self.path.len()
            invariant
                i <= self.path.len(),
                out@ == record_bytes(self.fingerprint@, self.path@.take(i as int)),
            decreases self.path.len() - i,
        {
            write_le32(&mut out, number_of_child(self.path[i]));
            proof {
                let next = self.path@.take(i as int + 1);
                assert(next.drop_last() =~= self.path@.take(i as int));
                assert(next.last() == self.path@[i as int]);
                assert(out@ =~= record_bytes(self.fingerprint@, next));
            }
            i += 1;
        }
        proof {
            assert(self.path@.take(i as int) =~= self.path@);
            lemma_path_bytes_len(self.path@);
        }
        out
    }
}

} // verus!
