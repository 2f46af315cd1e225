//! The global section: how it is read from the entries of its map, and the
//! entries it is written as.

use vstd::prelude::*;
use crate::bytes::copy_bytes;
use crate::error::DecodeError;
use crate::fields::{
    add_unknown, check_once, fold_entries, lemma_fold_concat, lemma_fold_one, lemma_fold_step,
    lemma_inserted_sized, lemma_put_unknown_next, lemma_wire_concat, lemma_wire_opt,
    lemma_wire_unknown, opt_entry, push_opt, push_unknown, put_once, put_unknown,
};
use crate::keyed::{lemma_inserted_all, sorted};
use crate::model::{opt_bytes, sized, unknown_keys, Global, GlobalView, GLOBAL_LAST_KNOWN};
use crate::tx::{count_unsigned, unsigned_counts};
use crate::wire::{entry_views, wire_entries, Entry};

verus! {

/// The type byte of the unsigned transaction.
pub const GLOBAL_UNSIGNED_TX: u8 = 0x00;

/// A global section while its map is read: the transaction may not have come
/// yet.
pub struct GlobalDraft {
    pub unsigned_tx: Option<Seq<u8>>,
    pub unknown: Seq<(Seq<u8>, Seq<u8>)>,
}

/// The bytes, where they are an unsigned transaction.
pub open spec fn unsigned_if_valid(value: Seq<u8>) -> Option<Seq<u8>> {
    if unsigned_counts(value) is Some {
        Some(value)
    } else {
        None
    }
}

/// Reads one entry into a global section.
pub open spec fn global_put(acc: GlobalDraft, key: Seq<u8>, value: Seq<u8>) -> Result<
    GlobalDraft,
    DecodeError,
> {
    if key.len() == 0 {
        Err(DecodeError::InvalidKey)
    } else if key[0] == GLOBAL_UNSIGNED_TX {
        match put_once(
            acc.unsigned_tx,
            key,
            unsigned_if_valid(value),
            DecodeError::InvalidTransaction,
        ) {
            Ok(slot) => Ok(GlobalDraft { unsigned_tx: slot, ..acc }),
            Err(e) => Err(e),
        }
    } else {
        match put_unknown(acc.unknown, key, value) {
            Ok(m) => Ok(GlobalDraft { unknown: m, ..acc }),
            Err(e) => Err(e),
        }
    }
}

/// `global_put` as a rule for `fold_entries`.
pub open spec fn global_rule() -> spec_fn(GlobalDraft, Seq<u8>, Seq<u8>) -> Result<
    GlobalDraft,
    DecodeError,
> {
    |acc: GlobalDraft, key: Seq<u8>, value: Seq<u8>| global_put(acc, key, value)
}

/// The global section that the entries of a map make. A map without an
/// unsigned transaction makes none.
pub open spec fn global_from(entries: Seq<(Seq<u8>, Seq<u8>)>) -> Result<GlobalView, DecodeError> {
    match fold_entries(
        global_rule(),
        GlobalDraft { unsigned_tx: None, unknown: Seq::empty() },
        entries,
    ) {
        Err(e) => Err(e),
        Ok(draft) => match draft.unsigned_tx {
            None => Err(DecodeError::MissingTransaction),
            Some(tx) => Ok(GlobalView { unsigned_tx: tx, unknown: draft.unknown }),
        },
    }
}

/// The entries that a global section is written as: the unsigned transaction,
/// then the fields of unknown type.
pub open spec fn global_entries(g: GlobalView) -> Seq<(Seq<u8>, Seq<u8>)> {
    opt_entry(GLOBAL_UNSIGNED_TX, Some(g.unsigned_tx)) + g.unknown
}

/// The wire can hold the entries that a well-formed global section is
/// written as.
pub proof fn lemma_global_entries_fit(g: GlobalView)
    requires
        g.wf(),
    ensures
        wire_entries(global_entries(g)),
{
    lemma_wire_opt(GLOBAL_UNSIGNED_TX, Some(g.unsigned_tx));
    lemma_wire_unknown(g.unknown, GLOBAL_LAST_KNOWN);
    lemma_wire_concat(opt_entry(GLOBAL_UNSIGNED_TX, Some(g.unsigned_tx)), g.unknown);
}

proof fn lemma_global_fold_unknown(acc: GlobalDraft, unknown: Seq<(Seq<u8>, Seq<u8>)>, j: int)
    requires
        sorted(unknown),
        unknown_keys(unknown, GLOBAL_LAST_KNOWN),
        0 <= j <= unknown.len(),
        acc.unknown == unknown.take(j),
    ensures
        fold_entries(global_rule(), acc, unknown.skip(j)) == Ok::<GlobalDraft, DecodeError>(
            GlobalDraft { unknown: unknown, ..acc },
        ),
    decreases unknown.len() - j,
{
    if j == unknown.len() {
        assert(unknown.skip(j) =~= Seq::empty());
        assert(unknown.take(j) =~= unknown);
    } else {
        lemma_fold_step(global_rule(), acc, unknown, j);
        lemma_put_unknown_next(unknown, j);
        assert(unknown[j].0.len() > 0 && unknown[j].0[0] > GLOBAL_LAST_KNOWN);
        let next = GlobalDraft { unknown: unknown.take(j + 1), ..acc };
        assert(global_put(acc, unknown[j].0, unknown[j].1) == Ok::<GlobalDraft, DecodeError>(next));
        lemma_global_fold_unknown(next, unknown, j + 1);
    }
}

/// Reading the entries that a well-formed global section is written as gives
/// the section back.
pub proof fn lemma_global_round_trip(g: GlobalView)
    requires
        g.wf(),
    ensures
        global_from(global_entries(g)) == Ok::<GlobalView, DecodeError>(g),
{
    let s0 = GlobalDraft { unsigned_tx: None, unknown: Seq::empty() };
    let s1 = GlobalDraft { unsigned_tx: Some(g.unsigned_tx), ..s0 };
    let e1 = opt_entry(GLOBAL_UNSIGNED_TX, Some(g.unsigned_tx));
    lemma_fold_one(global_rule(), s0, (seq![GLOBAL_UNSIGNED_TX], g.unsigned_tx));
    assert(fold_entries(global_rule(), s0, e1) == Ok::<GlobalDraft, DecodeError>(s1));
    lemma_fold_concat(global_rule(), s0, e1, g.unknown);
    assert(g.unknown.take(0) =~= Seq::empty());
    assert(g.unknown.skip(0) =~= g.unknown);
    lemma_global_fold_unknown(s1, g.unknown, 0);
}

impl Global {
    /// Makes a global section of the entries of its map, and counts the inputs
    /// and outputs of its transaction.
    pub fn from_entries(entries: &Vec<Entry>) -> (r: Result<(Global, usize, usize), DecodeError>)
        ensures
            match r {
                Ok((g, n_in, n_out)) => global_from(entry_views(entries@)) == Ok::<
                    GlobalView,
                    DecodeError,
                >(g@) && g@.wf() && unsigned_counts(g@.unsigned_tx) == Some(
                    (n_in as nat, n_out as nat),
                ),
                Err(e) => global_from(entry_views(entries@)) == Err::<GlobalView, DecodeError>(e),
            },
    {
        let ghost all = entry_views(entries@);
        let mut tx: Option<Vec<u8>> = None;
        let mut counts: (usize, usize) = (0, 0);
        let mut unknown: Vec<Entry> = Vec::new();
        let mut i: usize = 0;
        proof {
            assert(all.skip(0) =~= all);
            assert(entry_views(unknown@) =~= Seq::empty());
        }
        while i < entries.len()
            invariant
                i <= entries.len(),
                all == entry_views(entries@),
                sorted(entry_views(unknown@)),
                unknown_keys(entry_views(unknown@), GLOBAL_LAST_KNOWN),
                sized(entry_views(unknown@)),
                tx matches Some(t) ==> unsigned_counts(t@) == Some(
                    (counts.0 as nat, counts.1 as nat),
                ),
                fold_entries(
                    global_rule(),
                    GlobalDraft { unsigned_tx: None, unknown: Seq::empty() },
                    all,
                ) == fold_entries(
                    global_rule(),
                    GlobalDraft { unsigned_tx: opt_bytes(tx), unknown: entry_views(unknown@) },
                    all.skip(i as int),
                ),
            decreases entries.len() - i,
        {
            let ghost draft = GlobalDraft {
                unsigned_tx: opt_bytes(tx),
                unknown: entry_views(unknown@),
            };
            proof {
                lemma_fold_step(global_rule(), draft, all, i as int);
            }
            let key = &entries[i].key;
            let value = &entries[i].value;
            if key.len() == 0 {
                return Err(DecodeError::InvalidKey);
            }
            if key[0] == GLOBAL_UNSIGNED_TX {
                if let Some(e) = check_once(tx.is_some(), key) {
                    return Err(e);
                }
                match count_unsigned(value) {
                    Err(e) => {
                        return Err(e);
                    },
                    Ok(found) => {
                        counts = found;
                        tx = Some(copy_bytes(value));
                    },
                }
            } else {
                let ghost before = entry_views(unknown@);
                // Their lengths are machine numbers, so a size prefix can hold them.
                let _key_len: usize = key.len();
                let _value_len: usize = value.len();
                match add_unknown(&mut unknown, key, value) {
                    Err(e) => {
                        return Err(e);
                    },
                    Ok(_) => {
                        proof {
                            lemma_inserted_all(
                                before,
                                key@,
                                value@,
                                |e: (Seq<u8>, Seq<u8>)| e.0.len() > 0 && e.0[0] > GLOBAL_LAST_KNOWN,
                            );
                            lemma_inserted_sized(before, key@, value@);
                        }
                    },
                }
            }
            i += 1;
        }
        proof {
            assert(all.skip(i as int) =~= Seq::empty());
        }
        match tx {
            None => Err(DecodeError::MissingTransaction),
            Some(t) => {
                // Their lengths are machine numbers, so a size prefix can hold them.
                let _tx_len: usize = t.len();
                Ok((Global { unsigned_tx: t, unknown }, counts.0, counts.1))
            },
        }
    }

    /// The entries that the section is written as.
    pub fn entries(&self) -> (r: Vec<Entry>)
        ensures
            entry_views(r@) == global_entries(self@),
    {
        let mut out: Vec<Entry> = Vec::new();
        proof {
            assert(entry_views(out@) =~= Seq::empty());
        }
        push_opt(&mut out, GLOBAL_UNSIGNED_TX, Some(copy_bytes(&self.unsigned_tx)));
        push_unknown(&mut out, &self.unknown);
        proof {
            assert(entry_views(out@) =~= global_entries(self@));
        }
        out
    }
}

} // verus!
