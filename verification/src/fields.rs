//! How a section is read from the entries of its map and written back to
//! them: the rules that all three kinds of section share.

use vstd::prelude::*;
use crate::bytes::copy_bytes;
use crate::error::DecodeError;
use crate::keyed::{has_key, insert_entry, inserted, lemma_sorted_take, sorted};
use crate::model::{is_pubkey, opt_bytes, opt_sized, pubkey_keys, sized};
use crate::wire::{entry_views, wire_entries, Entry};

verus! {

/// Reads the entries of a map into a section, one after the other, with the
/// rule `put` of the section's kind. The first entry that `put` refuses
/// decides the error.
pub open spec fn fold_entries<S>(
    put: spec_fn(S, Seq<u8>, Seq<u8>) -> Result<S, DecodeError>,
    acc: S,
    entries: Seq<(Seq<u8>, Seq<u8>)>,
) -> Result<S, DecodeError>
    decreases entries.len(),
{
    if entries.len() == 0 {
        Ok(acc)
    } else {
        match put(acc, entries[0].0, entries[0].1) {
            Err(e) => Err(e),
            Ok(next) => fold_entries(put, next, entries.drop_first()),
        }
    }
}

/// Reading `a` and then `b` is reading `a` followed by `b`.
pub proof fn lemma_fold_concat<S>(
    put: spec_fn(S, Seq<u8>, Seq<u8>) -> Result<S, DecodeError>,
    acc: S,
    a: Seq<(Seq<u8>, Seq<u8>)>,
    b: Seq<(Seq<u8>, Seq<u8>)>,
)
    ensures
        fold_entries(put, acc, a + b) == match fold_entries(put, acc, a) {
            Err(e) => Err(e),
            Ok(mid) => fold_entries(put, mid, b),
        },
    decreases a.len(),
{
    if a.len() == 0 {
        assert(a + b =~= b);
    } else {
        assert((a + b).drop_first() =~= a.drop_first() + b);
        assert((a + b)[0] == a[0]);
        match put(acc, a[0].0, a[0].1) {
            Err(e) => {},
            Ok(next) => {
                lemma_fold_concat(put, next, a.drop_first(), b);
            },
        }
    }
}

/// Reading one entry is applying the rule to it.
pub proof fn lemma_fold_one<S>(
    put: spec_fn(S, Seq<u8>, Seq<u8>) -> Result<S, DecodeError>,
    acc: S,
    entry: (Seq<u8>, Seq<u8>),
)
    ensures
        fold_entries(put, acc, seq![entry]) == put(acc, entry.0, entry.1),
{
    assert(seq![entry].drop_first() =~= Seq::<(Seq<u8>, Seq<u8>)>::empty());
    match put(acc, entry.0, entry.1) {
        Err(e) => {},
        Ok(next) => {
            assert(fold_entries(put, next, Seq::<(Seq<u8>, Seq<u8>)>::empty()) == Ok::<
                S,
                DecodeError,
            >(next));
        },
    }
}

/// Reading the entries from the `i`-th on, after one step.
pub proof fn lemma_fold_step<S>(
    put: spec_fn(S, Seq<u8>, Seq<u8>) -> Result<S, DecodeError>,
    acc: S,
    entries: Seq<(Seq<u8>, Seq<u8>)>,
    i: int,
)
    requires
        0 <= i < entries.len(),
    ensures
        fold_entries(put, acc, entries.skip(i)) == match put(acc, entries[i].0, entries[i].1) {
            Err(e) => Err(e),
            Ok(next) => fold_entries(put, next, entries.skip(i + 1)),
        },
{
    assert(entries.skip(i).drop_first() =~= entries.skip(i + 1));
}

/// Sets a field that occurs at most once in a section: its key is the type
/// byte alone, it must not be set yet, and its value must have been read.
pub open spec fn put_once<T>(slot: Option<T>, key: Seq<u8>, parsed: Option<T>, bad: DecodeError) -> Result<
    Option<T>,
    DecodeError,
> {
    if key.len() != 1 {
        Err(DecodeError::InvalidKey)
    } else if slot is Some {
        Err(DecodeError::DuplicateKey)
    } else {
        match parsed {
            None => Err(bad),
            Some(v) => Ok(Some(v)),
        }
    }
}

/// Adds an entry to a collection that is keyed by public keys: the key data
/// behind the type byte must be a public key that the collection does not
/// hold yet, and the value must be of the collection's kind.
pub open spec fn put_keyed(
    m: Seq<(Seq<u8>, Seq<u8>)>,
    key: Seq<u8>,
    value: Seq<u8>,
    value_ok: bool,
) -> Result<Seq<(Seq<u8>, Seq<u8>)>, DecodeError> {
    if !is_pubkey(key.skip(1)) {
        Err(DecodeError::InvalidKey)
    } else if has_key(m, key.skip(1)) {
        Err(DecodeError::DuplicateKey)
    } else if !value_ok {
        Err(DecodeError::InvalidValue)
    } else {
        Ok(inserted(m, key.skip(1), value))
    }
}

/// Adds a field of unknown type under its whole key, which the collection
/// must not hold yet.
pub open spec fn put_unknown(m: Seq<(Seq<u8>, Seq<u8>)>, key: Seq<u8>, value: Seq<u8>) -> Result<
    Seq<(Seq<u8>, Seq<u8>)>,
    DecodeError,
> {
    if has_key(m, key) {
        Err(DecodeError::DuplicateKey)
    } else {
        Ok(inserted(m, key, value))
    }
}

/// The entry of a field that occurs at most once: none where it is not set.
pub open spec fn opt_entry(kind: u8, value: Option<Seq<u8>>) -> Seq<(Seq<u8>, Seq<u8>)> {
    match value {
        Some(v) => seq![(seq![kind], v)],
        None => Seq::empty(),
    }
}

/// The entries of a collection that is keyed by public keys: each key behind
/// the type byte.
pub open spec fn keyed_entries(kind: u8, m: Seq<(Seq<u8>, Seq<u8>)>) -> Seq<(Seq<u8>, Seq<u8>)> {
    Seq::new(m.len(), |i: int| (seq![kind] + m[i].0, m[i].1))
}

/// The next entry of a sorted collection of public keys goes in behind the
/// ones before it.
pub proof fn lemma_put_keyed_next(m: Seq<(Seq<u8>, Seq<u8>)>, kind: u8, j: int)
    requires
        sorted(m),
        pubkey_keys(m),
        0 <= j < m.len(),
    ensures
        put_keyed(m.take(j), keyed_entries(kind, m)[j].0, keyed_entries(kind, m)[j].1, true) == Ok::<
            Seq<(Seq<u8>, Seq<u8>)>,
            DecodeError,
        >(m.take(j + 1)),
        keyed_entries(kind, m)[j].0.len() > 0,
        keyed_entries(kind, m)[j].0[0] == kind,
        keyed_entries(kind, m)[j].1 == m[j].1,
{
    let key = keyed_entries(kind, m)[j].0;
    assert(key.skip(1) =~= m[j].0);
    assert(is_pubkey(m[j].0));
    lemma_sorted_take(m, j);
}

/// The next entry of a sorted collection of unknown fields goes in behind the
/// ones before it.
pub proof fn lemma_put_unknown_next(m: Seq<(Seq<u8>, Seq<u8>)>, j: int)
    requires
        sorted(m),
        0 <= j < m.len(),
    ensures
        put_unknown(m.take(j), m[j].0, m[j].1) == Ok::<Seq<(Seq<u8>, Seq<u8>)>, DecodeError>(
            m.take(j + 1),
        ),
{
    lemma_sorted_take(m, j);
}

/// Entries that the wire can hold, one sequence after another, are entries
/// that the wire can hold.
pub proof fn lemma_wire_concat(a: Seq<(Seq<u8>, Seq<u8>)>, b: Seq<(Seq<u8>, Seq<u8>)>)
    requires
        wire_entries(a),
        wire_entries(b),
    ensures
        wire_entries(a + b),
{
    let all = a + b;
    assert forall|i: int| 0 <= i < all.len() implies 0 < (#[trigger] all[i]).0.len() <= u64::MAX
        && all[i].1.len() <= u64::MAX by {
        if i < a.len() {
            assert(all[i] == a[i]);
        } else {
            assert(all[i] == b[i - a.len()]);
        }
    }
}

/// The wire can hold the entry of a field whose value is short enough.
pub proof fn lemma_wire_opt(kind: u8, value: Option<Seq<u8>>)
    requires
        opt_sized(value),
    ensures
        wire_entries(opt_entry(kind, value)),
{
}

/// The wire can hold the entries of a collection of public keys whose values
/// are short enough.
pub proof fn lemma_wire_keyed(kind: u8, m: Seq<(Seq<u8>, Seq<u8>)>)
    requires
        pubkey_keys(m),
        sized(m),
    ensures
        wire_entries(keyed_entries(kind, m)),
{
    let all = keyed_entries(kind, m);
    assert forall|i: int| 0 <= i < all.len() implies 0 < (#[trigger] all[i]).0.len() <= u64::MAX
        && all[i].1.len() <= u64::MAX by {
        assert(is_pubkey(m[i].0));
        assert(m[i].1.len() <= u64::MAX);
    }
}

/// The wire can hold unknown fields whose keys and values are short enough.
pub proof fn lemma_wire_unknown(m: Seq<(Seq<u8>, Seq<u8>)>, last_known: u8)
    requires
        crate::model::unknown_keys(m, last_known),
        sized(m),
    ensures
        wire_entries(m),
{
    assert forall|i: int| 0 <= i < m.len() implies 0 < (#[trigger] m[i]).0.len() <= u64::MAX
        && m[i].1.len() <= u64::MAX by {
        assert(m[i].0.len() > 0 && m[i].0[0] > last_known);
    }
}

/// Putting an entry that is short enough into a collection of such entries
/// leaves it one.
pub proof fn lemma_inserted_sized(m: Seq<(Seq<u8>, Seq<u8>)>, key: Seq<u8>, value: Seq<u8>)
    requires
        sorted(m),
        sized(m),
        key.len() <= u64::MAX,
        value.len() <= u64::MAX,
    ensures
        sized(inserted(m, key, value)),
{
    crate::keyed::lemma_inserted_all(
        m,
        key,
        value,
        |e: (Seq<u8>, Seq<u8>)| e.0.len() <= u64::MAX && e.1.len() <= u64::MAX,
    );
}

/// The union of two collections of entries that are short enough is one.
pub proof fn lemma_united_sized(a: Seq<(Seq<u8>, Seq<u8>)>, b: Seq<(Seq<u8>, Seq<u8>)>)
    requires
        sized(a),
        sized(b),
        crate::keyed::united(a, b) is Some,
    ensures
        sized(crate::keyed::united(a, b).unwrap()),
{
    crate::keyed::lemma_united_all(
        a,
        b,
        |e: (Seq<u8>, Seq<u8>)| e.0.len() <= u64::MAX && e.1.len() <= u64::MAX,
    );
}

/// Tells whether a field that occurs at most once may be set: the error of
/// its key, if any.
pub fn check_once(taken: bool, key: &[u8]) -> (r: Option<DecodeError>)
    ensures
        r == if key@.len() != 1 {
            Some(DecodeError::InvalidKey)
        } else if taken {
            Some(DecodeError::DuplicateKey)
        } else {
            None
        },
{
    if key.len() != 1 {
        Some(DecodeError::InvalidKey)
    } else if taken {
        Some(DecodeError::DuplicateKey)
    } else {
        None
    }
}

/// Whether the bytes have the length of a public key.
pub fn pubkey_length(key: &[u8]) -> (r: bool)
    ensures
        r == is_pubkey(key@),
{
    key.len() == 33 || key.len() == 65
}

/// Adds an entry to a sorted collection that is keyed by public keys.
pub fn add_keyed(m: &mut Vec<Entry>, key: &[u8], value: &[u8], value_ok: bool) -> (r: Result<
    (),
    DecodeError,
>)
    requires
        key@.len() > 0,
        sorted(entry_views(old(m)@)),
    ensures
        match r {
            Ok(_) => put_keyed(entry_views(old(m)@), key@, value@, value_ok) == Ok::<
                Seq<(Seq<u8>, Seq<u8>)>,
                DecodeError,
            >(entry_views(final(m)@)) && sorted(entry_views(final(m)@)),
            Err(e) => put_keyed(entry_views(old(m)@), key@, value@, value_ok) == Err::<
                Seq<(Seq<u8>, Seq<u8>)>,
                DecodeError,
            >(e) && final(m)@ == old(m)@,
        },
{
    let pubkey = vstd::slice::slice_subrange(key, 1, key.len());
    proof {
        assert(pubkey@ =~= key@.skip(1));
    }
    if !pubkey_length(pubkey) {
        return Err(DecodeError::InvalidKey);
    }
    let at: usize = crate::keyed::find_rank(m, pubkey);
    proof {
        crate::keyed::lemma_has_key_at_rank(entry_views(m@), pubkey@);
    }
    if at < m.len() && crate::bytes::bytes_eq(&m[at].key, pubkey) {
        return Err(DecodeError::DuplicateKey);
    }
    if !value_ok {
        return Err(DecodeError::InvalidValue);
    }
    let went_in = insert_entry(m, copy_bytes(pubkey), copy_bytes(value));
    Ok(())
}

/// Adds a field of unknown type to a sorted collection.
pub fn add_unknown(m: &mut Vec<Entry>, key: &[u8], value: &[u8]) -> (r: Result<(), DecodeError>)
    requires
        sorted(entry_views(old(m)@)),
    ensures
        match r {
            Ok(_) => put_unknown(entry_views(old(m)@), key@, value@) == Ok::<
                Seq<(Seq<u8>, Seq<u8>)>,
                DecodeError,
            >(entry_views(final(m)@)) && sorted(entry_views(final(m)@)),
            Err(e) => put_unknown(entry_views(old(m)@), key@, value@) == Err::<
                Seq<(Seq<u8>, Seq<u8>)>,
                DecodeError,
            >(e) && final(m)@ == old(m)@,
        },
{
    if insert_entry(m, copy_bytes(key), copy_bytes(value)) {
        Ok(())
    } else {
        Err(DecodeError::DuplicateKey)
    }
}

/// Appends the entry of a field that occurs at most once.
pub fn push_opt(out: &mut Vec<Entry>, kind: u8, value: Option<Vec<u8>>)
    ensures
        entry_views(final(out)@) == entry_views(old(out)@) + opt_entry(kind, opt_bytes(value)),
{
    match value {
        None => {
            proof {
                assert(entry_views(out@) =~= entry_views(old(out)@) + opt_entry(kind, None));
            }
        },
        Some(v) => {
            let mut key: Vec<u8> = Vec::new();
            key.push(kind);
            proof {
                assert(key@ =~= seq![kind]);
            }
            out.push(Entry { key, value: v });
            proof {
                assert(entry_views(out@) =~= entry_views(old(out)@) + opt_entry(kind, Some(v@)));
            }
        },
    }
}

/// Appends the entries of a collection that is keyed by public keys.
pub fn push_keyed(out: &mut Vec<Entry>, kind: u8, m: &Vec<Entry>)
    ensures
        entry_views(final(out)@) == entry_views(old(out)@) + keyed_entries(kind, entry_views(m@)),
{
    let ghost all = keyed_entries(kind, entry_views(m@));
    let mut i: usize = 0;
    proof {
        assert(entry_views(out@) =~= entry_views(old(out)@) + all.take(0));
    }
    while i < m.len()
        invariant
            i <= m.len(),
            all == keyed_entries(kind, entry_views(m@)),
            entry_views(out@) == entry_views(old(out)@) + all.take(i as int),
        decreases m.len() - i,
    {
        let ghost before = entry_views(out@);
        let mut key: Vec<u8> = Vec::new();
        key.push(kind);
        crate::bytes::append_bytes(&mut key, &m[i].key);
        let value = copy_bytes(&m[i].value);
        proof {
            assert(key@ =~= seq![kind] + m@[i as int].key@);
        }
        out.push(Entry { key, value });
        proof {
            assert(entry_views(out@) =~= before.push(all[i as int]));
            assert(all.take(i as int + 1) =~= all.take(i as int).push(all[i as int]));
            assert(entry_views(out@) =~= entry_views(old(out)@) + all.take(i as int + 1));
        }
        i += 1;
    }
    proof {
        assert(all.take(i as int) =~= all);
    }
}

/// Appends the fields of unknown type.
pub fn push_unknown(out: &mut Vec<Entry>, m: &Vec<Entry>)
    ensures
        entry_views(final(out)@) == entry_views(old(out)@) + entry_views(m@),
{
    let ghost all = entry_views(m@);
    let mut i: usize = 0;
    proof {
        assert(entry_views(out@) =~= entry_views(old(out)@) + all.take(0));
    }
    while i < m.len()
        invariant
            i <= m.len(),
            all == entry_views(m@),
            entry_views(out@) == entry_views(old(out)@) + all.take(i as int),
        decreases m.len() - i,
    {
        let ghost before = entry_views(out@);
        out.push(crate::keyed::copy_entry(&m[i]));
        proof {
            assert(entry_views(out@) =~= before.push(all[i as int]));
            assert(all.take(i as int + 1) =~= all.take(i as int).push(all[i as int]));
            assert(entry_views(out@) =~= entry_views(old(out)@) + all.take(i as int + 1));
        }
        i += 1;
    }
    proof {
        assert(all.take(i as int) =~= all);
    }
}

/// An owned copy of an optional byte string.
pub fn copy_opt(o: &Option<Vec<u8>>) -> (r: Option<Vec<u8>>)
    ensures
        opt_bytes(r) == opt_bytes(*o),
{
    match o {
        Some(b) => Some(copy_bytes(b)),
        None => None,
    }
}

} // verus!
