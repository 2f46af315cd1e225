//! The framing of the wire format: length-prefixed byte strings, and maps of
//! key and value pairs that end with an empty key.

use vstd::prelude::*;
use crate::bytes::{append_bytes, copy_bytes};
use crate::compact::{
    compact, lemma_compact_round_trip, lemma_parse_compact_bounds, parse_compact, read_compact,
    write_compact,
};
use crate::error::DecodeError;

verus! {

/// A key and its value, as they stand in a map on the wire.
#[derive(Clone, Debug, PartialEq, Eq)]
pub struct Entry {
    pub key: Vec<u8>,
    pub value: Vec<u8>,
}

impl View for Entry {
    type V = (Seq<u8>, Seq<u8>);

    open spec fn view(&self) -> (Seq<u8>, Seq<u8>) {
        (self.key@, self.value@)
    }
}

/// The keys and values of a sequence of entries.
pub open spec fn entry_views(es: Seq<Entry>) -> Seq<(Seq<u8>, Seq<u8>)> {
    Seq::new(es.len(), |i: int| es[i]@)
}

/// A byte string behind its size prefix.
pub open spec fn prefixed(b: Seq<u8>) -> Seq<u8> {
    compact(b.len()) + b
}

/// Reads a size prefix and as many bytes as it says.
pub open spec fn parse_prefixed(s: Seq<u8>) -> Result<(Seq<u8>, Seq<u8>), DecodeError> {
    match parse_compact(s) {
        Err(e) => Err(e),
        Ok((n, rest)) => if rest.len() < n {
            Err(DecodeError::Truncated)
        } else {
            Ok((rest.take(n as int), rest.skip(n as int)))
        },
    }
}

/// A map on the wire: each entry as its prefixed key and prefixed value, then
/// one zero byte, the prefix of the empty key.
pub open spec fn map_bytes(entries: Seq<(Seq<u8>, Seq<u8>)>) -> Seq<u8>
    decreases entries.len(),
{
    if entries.len() == 0 {
        seq![0u8]
    } else {
        prefixed(entries[0].0) + prefixed(entries[0].1) + map_bytes(entries.drop_first())
    }
}

/// Reads a map from the front of `s`: its entries in the order of the wire,
/// and the bytes behind the map's end.
pub open spec fn parse_map(s: Seq<u8>) -> Result<(Seq<(Seq<u8>, Seq<u8>)>, Seq<u8>), DecodeError>
    decreases s.len(),
    via parse_map_decreases
{
    match parse_prefixed(s) {
        Err(e) => Err(e),
        Ok((key, after_key)) => if key.len() == 0 {
            Ok((Seq::empty(), after_key))
        } else {
            match parse_prefixed(after_key) {
                Err(e) => Err(e),
                Ok((value, after_value)) => with_entry((key, value), parse_map(after_value)),
            }
        },
    }
}

#[via_fn]
proof fn parse_map_decreases(s: Seq<u8>) {
    lemma_parse_prefixed_bounds(s);
    if let Ok((key, after_key)) = parse_prefixed(s) {
        lemma_parse_prefixed_bounds(after_key);
    }
}

/// The result of reading a map whose first entry is `entry` and whose other
/// entries were read as `tail`.
pub open spec fn with_entry(
    entry: (Seq<u8>, Seq<u8>),
    tail: Result<(Seq<(Seq<u8>, Seq<u8>)>, Seq<u8>), DecodeError>,
) -> Result<(Seq<(Seq<u8>, Seq<u8>)>, Seq<u8>), DecodeError> {
    with_entries(seq![entry], tail)
}

/// The result of reading a map whose first entries are `front` and whose
/// other entries were read as `tail`.
pub open spec fn with_entries(
    front: Seq<(Seq<u8>, Seq<u8>)>,
    tail: Result<(Seq<(Seq<u8>, Seq<u8>)>, Seq<u8>), DecodeError>,
) -> Result<(Seq<(Seq<u8>, Seq<u8>)>, Seq<u8>), DecodeError> {
    match tail {
        Err(e) => Err(e),
        Ok((more, rest)) => Ok((front + more, rest)),
    }
}

/// A prefixed byte string that was read is followed by fewer bytes than it
/// was read from.
pub proof fn lemma_parse_prefixed_bounds(s: Seq<u8>)
    ensures
        match parse_prefixed(s) {
            Ok((b, rest)) => rest.len() < s.len() && b.len() + rest.len() < s.len() && b.len()
                <= u64::MAX,
            Err(_) => true,
        },
{
    lemma_parse_compact_bounds(s);
}

/// Reading back a prefixed byte string gives the string and what followed it.
pub proof fn lemma_prefixed_round_trip(b: Seq<u8>, rest: Seq<u8>)
    requires
        b.len() <= u64::MAX,
    ensures
        parse_prefixed(prefixed(b) + rest) == Ok::<(Seq<u8>, Seq<u8>), DecodeError>((b, rest)),
{
    lemma_compact_round_trip(b.len(), b + rest);
    assert(prefixed(b) + rest =~= compact(b.len()) + (b + rest));
    assert((b + rest).take(b.len() as int) =~= b);
    assert((b + rest).skip(b.len() as int) =~= rest);
}

/// Entries that a map on the wire can hold: no key is empty, and every key and
/// value is short enough for a size prefix.
pub open spec fn wire_entries(entries: Seq<(Seq<u8>, Seq<u8>)>) -> bool {
    forall|i: int|
        0 <= i < entries.len() ==> 0 < (#[trigger] entries[i]).0.len() <= u64::MAX
            && entries[i].1.len() <= u64::MAX
}

/// What holds of all entries holds of all but the first.
pub proof fn lemma_wire_entries_tail(entries: Seq<(Seq<u8>, Seq<u8>)>)
    requires
        wire_entries(entries),
        entries.len() > 0,
    ensures
        wire_entries(entries.drop_first()),
        0 < entries[0].0.len() <= u64::MAX,
        entries[0].1.len() <= u64::MAX,
{
    let tail = entries.drop_first();
    assert forall|i: int| 0 <= i < tail.len() implies 0 < (#[trigger] tail[i]).0.len() <= u64::MAX
        && tail[i].1.len() <= u64::MAX by {
        assert(tail[i] == entries[i + 1]);
    }
}

/// Reading back a map gives its entries, in their order, and what followed it.
pub proof fn lemma_map_round_trip(entries: Seq<(Seq<u8>, Seq<u8>)>, rest: Seq<u8>)
    requires
        wire_entries(entries),
    ensures
        parse_map(map_bytes(entries) + rest) == Ok::<
            (Seq<(Seq<u8>, Seq<u8>)>, Seq<u8>),
            DecodeError,
        >((entries, rest)),
    decreases entries.len(),
{
    let s = map_bytes(entries) + rest;
    if entries.len() == 0 {
        assert(s =~= prefixed(Seq::<u8>::empty()) + rest) by {
            reveal(compact);
        }
        lemma_prefixed_round_trip(Seq::<u8>::empty(), rest);
        assert(entries =~= Seq::empty());
    } else {
        let key = entries[0].0;
        let value = entries[0].1;
        let tail = entries.drop_first();
        let after_value = map_bytes(tail) + rest;
        let after_key = prefixed(value) + after_value;
        lemma_wire_entries_tail(entries);
        assert(s =~= prefixed(key) + after_key);
        lemma_prefixed_round_trip(key, after_key);
        lemma_prefixed_round_trip(value, after_value);
        lemma_map_round_trip(tail, rest);
        assert(seq![(key, value)] + tail =~= entries);
    }
}

/// A map with one more entry at its end, without the closing byte, is the
/// map's entries followed by the new one; stated on the whole encodings.
pub proof fn lemma_map_bytes_push(entries: Seq<(Seq<u8>, Seq<u8>)>, entry: (Seq<u8>, Seq<u8>))
    ensures
        map_bytes(entries.push(entry)) == map_bytes(entries).drop_last() + prefixed(entry.0)
            + prefixed(entry.1) + seq![0u8],
        map_bytes(entries).len() > 0,
        map_bytes(entries).last() == 0u8,
    decreases entries.len(),
{
    if entries.len() == 0 {
        assert(entries.push(entry).drop_first() =~= entries);
        assert(map_bytes(entries.push(entry)) =~= map_bytes(entries).drop_last() + prefixed(
            entry.0,
        ) + prefixed(entry.1) + seq![0u8]);
    } else {
        let tail = entries.drop_first();
        lemma_map_bytes_push(tail, entry);
        assert(entries.push(entry).drop_first() =~= tail.push(entry));
        assert(map_bytes(entries.push(entry)) =~= map_bytes(entries).drop_last() + prefixed(
            entry.0,
        ) + prefixed(entry.1) + seq![0u8]);
    }
}

/// Reads a prefixed byte string at `pos`: where its bytes start and end.
pub fn read_prefixed(bytes: &[u8], pos: usize) -> (r: Result<(usize, usize), DecodeError>)
    requires
        pos <= bytes.len(),
    ensures
        match r {
            Ok((start, end)) => pos < start <= end <= bytes.len() && parse_prefixed(
                bytes@.skip(pos as int),
            ) == Ok::<(Seq<u8>, Seq<u8>), DecodeError>(
                (bytes@.subrange(start as int, end as int), bytes@.skip(end as int)),
            ),
            Err(e) => parse_prefixed(bytes@.skip(pos as int)) == Err::<
                (Seq<u8>, Seq<u8>),
                DecodeError,
            >(e),
        },
{
    match read_compact(bytes, pos) {
        Err(e) => Err(e),
        Ok((n, start)) => {
            let left: usize = bytes.len() - start;
            if (left as u64) < n {
                Err(DecodeError::Truncated)
            } else {
                let end: usize = start + (n as usize);
                proof {
                    let rest = bytes@.skip(start as int);
                    assert(rest.take(n as int) =~= bytes@.subrange(start as int, end as int));
                    assert(rest.skip(n as int) =~= bytes@.skip(end as int));
                }
                Ok((start, end))
            }
        },
    }
}

/// Reads a map at `pos`: its entries in the order of the wire, and the
/// position behind its end.
pub fn read_map(bytes: &[u8], pos: usize) -> (r: Result<(Vec<Entry>, usize), DecodeError>)
    requires
        pos <= bytes.len(),
    ensures
        match r {
            Ok((entries, next)) => pos < next <= bytes.len() && parse_map(bytes@.skip(pos as int))
                == Ok::<(Seq<(Seq<u8>, Seq<u8>)>, Seq<u8>), DecodeError>(
                (entry_views(entries@), bytes@.skip(next as int)),
            ),
            Err(e) => parse_map(bytes@.skip(pos as int)) == Err::<
                (Seq<(Seq<u8>, Seq<u8>)>, Seq<u8>),
                DecodeError,
            >(e),
        },
{
    let mut entries: Vec<Entry> = Vec::new();
    let mut cur: usize = pos;
    let ghost whole = parse_map(bytes@.skip(pos as int));
    proof {
        assert(entry_views(entries@) =~= Seq::empty());
        match whole {
            Ok((more, rest)) => {
                assert(Seq::<(Seq<u8>, Seq<u8>)>::empty() + more =~= more);
            },
            Err(_) => {},
        }
    }
    loop
        invariant
            pos <= cur <= bytes.len(),
            whole == parse_map(bytes@.skip(pos as int)),
            whole == with_entries(entry_views(entries@), parse_map(bytes@.skip(cur as int))),
        decreases bytes.len() - cur,
    {
        let ghost here = parse_map(bytes@.skip(cur as int));
        match read_prefixed(bytes, cur) {
            Err(e) => {
                return Err(e);
            },
            Ok((key_start, key_end)) => {
                if key_end == key_start {
                    proof {
                        assert(entry_views(entries@) + Seq::<(Seq<u8>, Seq<u8>)>::empty()
                            =~= entry_views(entries@));
                    }
                    return Ok((entries, key_end));
                }
                match read_prefixed(bytes, key_end) {
                    Err(e) => {
                        return Err(e);
                    },
                    Ok((value_start, value_end)) => {
                        let key = copy_bytes(vstd::slice::slice_subrange(bytes, key_start, key_end));
                        let value = copy_bytes(
                            vstd::slice::slice_subrange(bytes, value_start, value_end),
                        );
                        let ghost before = entry_views(entries@);
                        let ghost tail = parse_map(bytes@.skip(value_end as int));
                        proof {
                            assert(here == with_entry((key@, value@), tail));
                        }
                        entries.push(Entry { key, value });
                        proof {
                            assert(entry_views(entries@) =~= before.push((key@, value@)));
                            match tail {
                                Ok((more, rest)) => {
                                    assert(before + (seq![(key@, value@)] + more)
                                        =~= before.push((key@, value@)) + more);
                                },
                                Err(_) => {},
                            }
                        }
                        cur = value_end;
                    },
                }
            },
        }
    }
}

/// Appends a byte string behind its size prefix.
pub fn write_prefixed(out: &mut Vec<u8>, b: &[u8])
    ensures
        final(out)@ == old(out)@ + prefixed(b@),
{
    write_compact(out, b.len() as u64);
    append_bytes(out, b);
    proof {
        assert(out@ =~= old(out)@ + prefixed(b@));
    }
}

/// Appends a map.
pub fn write_map(out: &mut Vec<u8>, entries: &Vec<Entry>)
    ensures
        final(out)@ == old(out)@ + map_bytes(entry_views(entries@)),
{
    let ghost all = entry_views(entries@);
    let mut i: usize = 0;
    proof {
        assert(all.take(0) =~= Seq::empty());
        assert(old(out)@ + map_bytes(all.take(0)).drop_last() =~= old(out)@);
    }
    while i < entries.len()
        invariant
            i <= entries.len(),
            all == entry_views(entries@),
            out@ == old(out)@ + map_bytes(all.take(i as int)).drop_last(),
        decreases entries.len() - i,
    {
        let ghost before = out@;
        write_prefixed(out, &entries[i].key);
        write_prefixed(out, &entries[i].value);
        proof {
            let done = all.take(i as int);
            lemma_map_bytes_push(done, all[i as int]);
            assert(all.take(i as int + 1) =~= done.push(all[i as int]));
            assert(out@ =~= old(out)@ + map_bytes(all.take(i as int + 1)).drop_last());
        }
        i += 1;
    }
    out.push(0u8);
    proof {
        assert(all.take(i as int) =~= all);
        lemma_map_bytes_push(all, all[0]);
        assert(out@ =~= old(out)@ + map_bytes(all));
    }
}


/// A prefixed byte string is read from no other bytes than those it is
/// written as.
pub proof fn lemma_parse_prefixed_canonical(s: Seq<u8>)
    ensures
        match parse_prefixed(s) {
            Ok((b, rest)) => s == prefixed(b) + rest && b.len() <= u64::MAX,
            Err(_) => true,
        },
{
    crate::compact::lemma_parse_compact_canonical(s);
    if let Ok((b, rest)) = parse_prefixed(s) {
        if let Ok((n, after)) = parse_compact(s) {
            assert(b + rest =~= after);
            assert(s =~= prefixed(b) + rest);
        }
    }
}

} // verus!
