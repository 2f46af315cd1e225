//! The values of the typed fields on the wire: the signature-hash type, a
//! transaction output and a witness stack.

use vstd::prelude::*;
use crate::bytes::copy_bytes;
use crate::compact::{
    compact, le32, le32_bytes, le64, le64_bytes, lemma_compact_round_trip, lemma_le32_round_trip,
    lemma_le64_round_trip, parse_compact, read_compact, read_le32, read_le64, write_compact,
    write_le32, write_le64,
};
use crate::model::{stack_view, SigHashType, TxOut, TxOutView};
use crate::wire::{lemma_prefixed_round_trip, parse_prefixed, prefixed, read_prefixed, write_prefixed};

verus! {

/// The number that stands for a signature-hash type.
pub open spec fn sighash_code(t: SigHashType) -> nat {
    match t {
        SigHashType::All => 0x01,
        SigHashType::NoOutputs => 0x02,
        SigHashType::Single => 0x03,
        SigHashType::AllPlusAnyoneCanPay => 0x81,
        SigHashType::NoOutputsPlusAnyoneCanPay => 0x82,
        SigHashType::SinglePlusAnyoneCanPay => 0x83,
    }
}

/// The signature-hash type that a number stands for, if any.
pub open spec fn sighash_of_code(n: nat) -> Option<SigHashType> {
    if n == 0x01 {
        Some(SigHashType::All)
    } else if n == 0x02 {
        Some(SigHashType::NoOutputs)
    } else if n == 0x03 {
        Some(SigHashType::Single)
    } else if n == 0x81 {
        Some(SigHashType::AllPlusAnyoneCanPay)
    } else if n == 0x82 {
        Some(SigHashType::NoOutputsPlusAnyoneCanPay)
    } else if n == 0x83 {
        Some(SigHashType::SinglePlusAnyoneCanPay)
    } else {
        None
    }
}

/// A signature-hash type on the wire: its number in four bytes.
pub open spec fn sighash_bytes(t: SigHashType) -> Seq<u8> {
    le32_bytes(sighash_code(t))
}

/// Reads a signature-hash type: four bytes that spell one of the six numbers.
pub open spec fn parse_sighash(s: Seq<u8>) -> Option<SigHashType> {
    if s.len() != 4 {
        None
    } else {
        sighash_of_code(le32(s))
    }
}

/// Reading back a signature-hash type gives the type.
pub proof fn lemma_sighash_round_trip(t: SigHashType)
    ensures
        parse_sighash(sighash_bytes(t)) == Some(t),
        sighash_bytes(t).len() == 4,
{
    lemma_le32_round_trip(sighash_code(t), Seq::empty());
    assert(sighash_bytes(t) + Seq::<u8>::empty() =~= sighash_bytes(t));
}

/// A transaction output on the wire: the amount in eight bytes, then the
/// script behind its size prefix.
pub open spec fn txout_bytes(o: TxOutView) -> Seq<u8> {
    le64_bytes(o.value as nat) + prefixed(o.script_pubkey)
}

/// Reads a transaction output, which must take up all of `s`.
pub open spec fn parse_txout(s: Seq<u8>) -> Option<TxOutView> {
    if s.len() < 8 {
        None
    } else {
        match parse_prefixed(s.skip(8)) {
            Ok((script, rest)) => if rest.len() == 0 {
                Some(TxOutView { value: le64(s) as u64, script_pubkey: script })
            } else {
                None
            },
            Err(_) => None,
        }
    }
}

/// Reading back a transaction output gives the output.
pub proof fn lemma_txout_round_trip(o: TxOutView)
    requires
        o.script_pubkey.len() <= u64::MAX,
    ensures
        parse_txout(txout_bytes(o)) == Some(o),
{
    let s = txout_bytes(o);
    lemma_le64_round_trip(o.value as nat, prefixed(o.script_pubkey));
    lemma_prefixed_round_trip(o.script_pubkey, Seq::empty());
    assert(prefixed(o.script_pubkey) + Seq::<u8>::empty() =~= prefixed(o.script_pubkey));
}

/// The items of a witness stack on the wire, each behind its size prefix.
pub open spec fn items_bytes(w: Seq<Seq<u8>>) -> Seq<u8>
    decreases w.len(),
{
    if w.len() == 0 {
        Seq::empty()
    } else {
        prefixed(w[0]) + items_bytes(w.drop_first())
    }
}

/// A witness stack on the wire: the number of its items as a size prefix,
/// then the items.
pub open spec fn witness_bytes(w: Seq<Seq<u8>>) -> Seq<u8> {
    compact(w.len()) + items_bytes(w)
}

/// Reads `n` prefixed items, which must take up all of `s`.
pub open spec fn parse_items(s: Seq<u8>, n: nat) -> Option<Seq<Seq<u8>>>
    decreases n,
{
    if n == 0 {
        if s.len() == 0 {
            Some(Seq::empty())
        } else {
            None
        }
    } else {
        match parse_prefixed(s) {
            Ok((item, rest)) => item_then(item, parse_items(rest, (n - 1) as nat)),
            Err(_) => None,
        }
    }
}

/// The stack whose first item is `item` and whose other items were read as
/// `tail`.
pub open spec fn item_then(item: Seq<u8>, tail: Option<Seq<Seq<u8>>>) -> Option<Seq<Seq<u8>>> {
    items_then(seq![item], tail)
}

/// The stack whose first items are `front` and whose other items were read
/// as `tail`.
pub open spec fn items_then(front: Seq<Seq<u8>>, tail: Option<Seq<Seq<u8>>>) -> Option<
    Seq<Seq<u8>>,
> {
    match tail {
        Some(more) => Some(front + more),
        None => None,
    }
}

/// Reads a witness stack, which must take up all of `s`.
pub open spec fn parse_witness(s: Seq<u8>) -> Option<Seq<Seq<u8>>> {
    match parse_compact(s) {
        Ok((n, rest)) => parse_items(rest, n),
        Err(_) => None,
    }
}

/// A witness stack that a size prefix can count, of items that a size prefix
/// can measure.
pub open spec fn stack_fits(w: Seq<Seq<u8>>) -> bool {
    &&& w.len() <= u64::MAX
    &&& forall|i: int| 0 <= i < w.len() ==> (#[trigger] w[i]).len() <= u64::MAX
}

proof fn lemma_items_round_trip(w: Seq<Seq<u8>>)
    requires
        stack_fits(w),
    ensures
        parse_items(items_bytes(w), w.len()) == Some(w),
    decreases w.len(),
{
    if w.len() == 0 {
        assert(w =~= Seq::empty());
    } else {
        let tail = w.drop_first();
        assert(stack_fits(tail)) by {
            assert forall|i: int| 0 <= i < tail.len() implies (#[trigger] tail[i]).len()
                <= u64::MAX by {
                assert(tail[i] == w[i + 1]);
            }
        }
        lemma_prefixed_round_trip(w[0], items_bytes(tail));
        lemma_items_round_trip(tail);
        assert(seq![w[0]] + tail =~= w);
    }
}

/// Reading back a witness stack gives the stack.
pub proof fn lemma_witness_round_trip(w: Seq<Seq<u8>>)
    requires
        stack_fits(w),
    ensures
        parse_witness(witness_bytes(w)) == Some(w),
{
    lemma_compact_round_trip(w.len(), items_bytes(w));
    lemma_items_round_trip(w);
}

proof fn lemma_items_bytes_push(w: Seq<Seq<u8>>, item: Seq<u8>)
    ensures
        items_bytes(w.push(item)) == items_bytes(w) + prefixed(item),
    decreases w.len(),
{
    if w.len() == 0 {
        assert(w.push(item).drop_first() =~= w);
        assert(items_bytes(w.push(item)) =~= items_bytes(w) + prefixed(item));
    } else {
        lemma_items_bytes_push(w.drop_first(), item);
        assert(w.push(item).drop_first() =~= w.drop_first().push(item));
        assert(items_bytes(w.push(item)) =~= items_bytes(w) + prefixed(item));
    }
}

/// The number that stands for a signature-hash type.
pub fn sighash_to_u32(t: SigHashType) -> (r: u32)
    ensures
        r == sighash_code(t),
{
    match t {
        SigHashType::All => 0x01,
        SigHashType::NoOutputs => 0x02,
        SigHashType::Single => 0x03,
        SigHashType::AllPlusAnyoneCanPay => 0x81,
        SigHashType::NoOutputsPlusAnyoneCanPay => 0x82,
        SigHashType::SinglePlusAnyoneCanPay => 0x83,
    }
}

/// The signature-hash type that a number stands for, if any.
pub fn sighash_from_u32(n: u32) -> (r: Option<SigHashType>)
    ensures
        r == sighash_of_code(n as nat),
{
    if n == 0x01 {
        Some(SigHashType::All)
    } else if n == 0x02 {
        Some(SigHashType::NoOutputs)
    } else if n == 0x03 {
        Some(SigHashType::Single)
    } else if n == 0x81 {
        Some(SigHashType::AllPlusAnyoneCanPay)
    } else if n == 0x82 {
        Some(SigHashType::NoOutputsPlusAnyoneCanPay)
    } else if n == 0x83 {
        Some(SigHashType::SinglePlusAnyoneCanPay)
    } else {
        None
    }
}

/// A signature-hash type as the value of its field.
pub fn encode_sighash(t: SigHashType) -> (r: Vec<u8>)
    ensures
        r@ == sighash_bytes(t),
{
    let mut out: Vec<u8> = Vec::new();
    write_le32(&mut out, sighash_to_u32(t));
    proof {
        assert(out@ =~= sighash_bytes(t));
    }
    out
}

/// Reads the value of a signature-hash type's field.
pub fn decode_sighash(value: &[u8]) -> (r: Option<SigHashType>)
    ensures
        r == parse_sighash(value@),
{
    if value.len() != 4 {
        return None;
    }
    let n: u32 = read_le32(value, 0);
    proof {
        assert(value@.skip(0) =~= value@);
    }
    sighash_from_u32(n)
}

/// A transaction output as the value of its field.
pub fn encode_txout(o: &TxOut) -> (r: Vec<u8>)
    ensures
        r@ == txout_bytes(o@),
{
    let mut out: Vec<u8> = Vec::new();
    write_le64(&mut out, o.value);
    write_prefixed(&mut out, &o.script_pubkey);
    proof {
        assert(out@ =~= txout_bytes(o@));
    }
    out
}

/// Reads the value of a transaction output's field.
pub fn decode_txout(value: &[u8]) -> (r: Option<TxOut>)
    ensures
        match r {
            Some(o) => parse_txout(value@) == Some(o@),
            None => parse_txout(value@) is None,
        },
{
    if value.len() < 8 {
        return None;
    }
    let amount: u64 = read_le64(value, 0);
    proof {
        assert(value@.skip(0) =~= value@);
    }
    match read_prefixed(value, 8) {
        Err(_) => None,
        Ok((start, end)) => {
            if end != value.len() {
                return None;
            }
            let script = copy_bytes(vstd::slice::slice_subrange(value, start, end));
            Some(TxOut { value: amount, script_pubkey: script })
        },
    }
}

/// A witness stack as the value of its field.
pub fn encode_witness(w: &Vec<Vec<u8>>) -> (r: Vec<u8>)
    ensures
        r@ == witness_bytes(stack_view(w@)),
{
    let ghost all = stack_view(w@);
    let mut out: Vec<u8> = Vec::new();
    write_compact(&mut out, w.len() as u64);
    let mut i: usize = 0;
    proof {
        assert(all.take(0) =~= Seq::empty());
        assert(out@ =~= compact(all.len()) + items_bytes(all.take(0)));
    }
    while i < w.len()
        invariant
            i <= w.len(),
            all == stack_view(w@),
            out@ == compact(all.len()) + items_bytes(all.take(i as int)),
        decreases w.len() - i,
    {
        write_prefixed(&mut out, &w[i]);
        proof {
            lemma_items_bytes_push(all.take(i as int), all[i as int]);
            assert(all.take(i as int + 1) =~= all.take(i as int).push(all[i as int]));
            assert(out@ =~= compact(all.len()) + items_bytes(all.take(i as int + 1)));
        }
        i += 1;
    }
    proof {
        assert(all.take(i as int) =~= all);
    }
    out
}

/// Reads the value of a witness stack's field.
pub fn decode_witness(value: &[u8]) -> (r: Option<Vec<Vec<u8>>>)
    ensures
        match r {
            Some(w) => parse_witness(value@) == Some(stack_view(w@)),
            None => parse_witness(value@) is None,
        },
{
    let (n, first) = match read_compact(value, 0) {
        Err(_) => {
            proof {
                assert(value@.skip(0) =~= value@);
            }
            return None;
        },
        Ok(found) => found,
    };
    proof {
        assert(value@.skip(0) =~= value@);
    }
    let ghost whole = parse_witness(value@);
    let mut items: Vec<Vec<u8>> = Vec::new();
    let mut cur: usize = first;
    let mut k: u64 = 0;
    proof {
        assert(stack_view(items@) =~= Seq::empty());
        match whole {
            Some(more) => {
                assert(Seq::<Seq<u8>>::empty() + more =~= more);
            },
            None => {},
        }
    }
    while k < n
        invariant
            k <= n,
            cur <= value.len(),
            whole == parse_witness(value@),
            whole == items_then(
                stack_view(items@),
                parse_items(value@.skip(cur as int), (n - k) as nat),
            ),
        decreases n - k,
    {
        match read_prefixed(value, cur) {
            Err(_) => {
                return None;
            },
            Ok((start, end)) => {
                let item = copy_bytes(vstd::slice::slice_subrange(value, start, end));
                let ghost before = stack_view(items@);
                let ghost tail = parse_items(value@.skip(end as int), (n - k - 1) as nat);
                items.push(item);
                proof {
                    assert(stack_view(items@) =~= before.push(item@));
                    match tail {
                        Some(more) => {
                            assert(before + (seq![item@] + more) =~= before.push(item@) + more);
                        },
                        None => {},
                    }
                }
                cur = end;
                k += 1;
            },
        }
    }
    if cur != value.len() {
        return None;
    }
    proof {
        assert(value@.skip(cur as int).len() == 0);
        assert(stack_view(items@) + Seq::<Seq<u8>>::empty() =~= stack_view(items@));
    }
    Some(items)
}


/// A transaction output is read from no other bytes than those it is written
/// as.
pub proof fn lemma_parse_txout_canonical(s: Seq<u8>)
    ensures
        match parse_txout(s) {
            Some(o) => txout_bytes(o) == s && o.script_pubkey.len() <= u64::MAX,
            None => true,
        },
{
    if let Some(o) = parse_txout(s) {
        crate::compact::lemma_le64_canonical(s);
        crate::wire::lemma_parse_prefixed_canonical(s.skip(8));
        assert(s.take(8) + s.skip(8) =~= s);
        assert(prefixed(o.script_pubkey) + Seq::<u8>::empty() =~= prefixed(o.script_pubkey));
        assert(s.skip(8) =~= prefixed(o.script_pubkey)) by {
            let rest = parse_prefixed(s.skip(8)).unwrap().1;
            assert(rest =~= Seq::<u8>::empty());
        }
    }
}

proof fn lemma_parse_items_canonical(s: Seq<u8>, n: nat)
    ensures
        match parse_items(s, n) {
            Some(w) => items_bytes(w) == s && w.len() == n && forall|i: int|
                0 <= i < w.len() ==> (#[trigger] w[i]).len() <= u64::MAX,
            None => true,
        },
    decreases n,
{
    if let Some(w) = parse_items(s, n) {
        if n == 0 {
            assert(s =~= Seq::<u8>::empty());
        } else {
            crate::wire::lemma_parse_prefixed_canonical(s);
            let (item, rest) = parse_prefixed(s).unwrap();
            lemma_parse_items_canonical(rest, (n - 1) as nat);
            let more = parse_items(rest, (n - 1) as nat).unwrap();
            assert(w == seq![item] + more);
            assert(w.drop_first() =~= more);
            assert(w[0] == item);
            assert forall|i: int| 0 <= i < w.len() implies (#[trigger] w[i]).len() <= u64::MAX by {
                if i > 0 {
                    assert(w[i] == more[i - 1]);
                }
            }
        }
    }
}

/// A witness stack is read from no other bytes than those it is written as.
pub proof fn lemma_parse_witness_canonical(s: Seq<u8>)
    ensures
        match parse_witness(s) {
            Some(w) => witness_bytes(w) == s && stack_fits(w),
            None => true,
        },
{
    if let Some(w) = parse_witness(s) {
        crate::compact::lemma_parse_compact_canonical(s);
        let (n, rest) = parse_compact(s).unwrap();
        lemma_parse_items_canonical(rest, n);
    }
}

} // verus!
