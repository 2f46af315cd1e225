//! Keyed collections: entries held in ascending order of their keys, each key
//! once. The order is the lexicographic order of the keys' bytes, so that a
//! collection has one representation, whatever the order in which its entries
//! arrived.

use vstd::prelude::*;
use crate::bytes::{
    bytes_eq, copy_bytes, lemma_lex_asym, lemma_lex_irreflexive, lemma_lex_total, lemma_lex_trans,
    lex_lt, lex_rank, Rank,
};
use crate::wire::{entry_views, Entry};

verus! {

/// The keys ascend strictly, so none occurs twice.
pub open spec fn sorted(m: Seq<(Seq<u8>, Seq<u8>)>) -> bool {
    forall|i: int, j: int| 0 <= i < j < m.len() ==> lex_lt((#[trigger] m[i]).0, (#[trigger] m[j]).0)
}

/// Some entry of `m` has the key `key`.
pub open spec fn has_key(m: Seq<(Seq<u8>, Seq<u8>)>, key: Seq<u8>) -> bool {
    exists|i: int| 0 <= i < m.len() && (#[trigger] m[i]).0 == key
}

/// Where an entry with the key `key` belongs in `m`: behind the last entry
/// whose key comes before `key`.
pub open spec fn rank(m: Seq<(Seq<u8>, Seq<u8>)>, key: Seq<u8>) -> int
    decreases m.len(),
{
    if m.len() == 0 {
        0
    } else if lex_lt(m.last().0, key) {
        m.len() as int
    } else {
        rank(m.drop_last(), key)
    }
}

/// `m` with the entry of `key` and `value` at its place.
pub open spec fn inserted(m: Seq<(Seq<u8>, Seq<u8>)>, key: Seq<u8>, value: Seq<u8>) -> Seq<
    (Seq<u8>, Seq<u8>),
> {
    m.insert(rank(m, key), (key, value))
}

/// In a sorted collection the keys before the rank of `key` come before
/// `key`, and no other does.
pub proof fn lemma_rank(m: Seq<(Seq<u8>, Seq<u8>)>, key: Seq<u8>)
    requires
        sorted(m),
    ensures
        0 <= rank(m, key) <= m.len(),
        forall|i: int| 0 <= i < rank(m, key) ==> lex_lt((#[trigger] m[i]).0, key),
        forall|i: int| rank(m, key) <= i < m.len() ==> !lex_lt((#[trigger] m[i]).0, key),
    decreases m.len(),
{
    if m.len() == 0 {
    } else if lex_lt(m.last().0, key) {
        assert forall|i: int| 0 <= i < m.len() implies lex_lt((#[trigger] m[i]).0, key) by {
            if i < m.len() - 1 {
                assert(lex_lt(m[i].0, m[m.len() - 1].0));
                lemma_lex_trans(m[i].0, m.last().0, key);
            }
        }
    } else {
        let front = m.drop_last();
        assert(sorted(front)) by {
            assert forall|i: int, j: int| 0 <= i < j < front.len() implies lex_lt(
                (#[trigger] front[i]).0,
                (#[trigger] front[j]).0,
            ) by {
                assert(front[i] == m[i] && front[j] == m[j]);
            }
        }
        lemma_rank(front, key);
        assert forall|i: int| 0 <= i < rank(m, key) implies lex_lt((#[trigger] m[i]).0, key) by {
            assert(front[i] == m[i]);
        }
        assert forall|i: int| rank(m, key) <= i < m.len() implies !lex_lt(
            (#[trigger] m[i]).0,
            key,
        ) by {
            if i < m.len() - 1 {
                assert(front[i] == m[i]);
            }
        }
    }
}

/// In a sorted collection a key that occurs stands at its rank.
pub proof fn lemma_has_key_at_rank(m: Seq<(Seq<u8>, Seq<u8>)>, key: Seq<u8>)
    requires
        sorted(m),
    ensures
        has_key(m, key) <==> (rank(m, key) < m.len() && m[rank(m, key)].0 == key),
{
    lemma_rank(m, key);
    let r = rank(m, key);
    if has_key(m, key) {
        let i = choose|i: int| 0 <= i < m.len() && (#[trigger] m[i]).0 == key;
        lemma_lex_irreflexive(key);
        assert(!lex_lt(m[i].0, key));
        assert(i >= r);
        if i > r {
            assert(lex_lt(m[r].0, m[i].0));
            assert(!lex_lt(m[r].0, key));
        }
    }
}

/// Putting a new key into a sorted collection leaves it sorted.
pub proof fn lemma_inserted_sorted(m: Seq<(Seq<u8>, Seq<u8>)>, key: Seq<u8>, value: Seq<u8>)
    requires
        sorted(m),
        !has_key(m, key),
    ensures
        sorted(inserted(m, key, value)),
{
    lemma_rank(m, key);
    lemma_has_key_at_rank(m, key);
    let r = rank(m, key);
    let n = inserted(m, key, value);
    assert forall|i: int, j: int| 0 <= i < j < n.len() implies lex_lt(
        (#[trigger] n[i]).0,
        (#[trigger] n[j]).0,
    ) by {
        if j < r {
            assert(n[i] == m[i] && n[j] == m[j]);
        } else if j == r {
            assert(n[i] == m[i]);
        } else if i < r {
            assert(n[i] == m[i] && n[j] == m[j - 1]);
            assert(lex_lt(m[i].0, key));
            assert(!lex_lt(m[j - 1].0, key));
            if m[j - 1].0 == key {
                assert(j - 1 == r) by {
                    if j - 1 > r {
                        assert(lex_lt(m[r].0, m[j - 1].0));
                    }
                }
            } else {
                lemma_lex_total_or(m[j - 1].0, key);
                lemma_lex_trans(m[i].0, key, m[j - 1].0);
            }
        } else if i == r {
            assert(n[j] == m[j - 1]);
            assert(!lex_lt(m[j - 1].0, key));
            if m[j - 1].0 == key {
                if j - 1 > r {
                    assert(lex_lt(m[r].0, m[j - 1].0));
                }
            } else {
                lemma_lex_total_or(m[j - 1].0, key);
            }
        } else {
            assert(n[i] == m[i - 1] && n[j] == m[j - 1]);
        }
    }
}

/// Of two different byte strings one comes before the other.
pub proof fn lemma_lex_total_or(a: Seq<u8>, b: Seq<u8>)
    requires
        a != b,
    ensures
        lex_lt(a, b) || lex_lt(b, a),
{
    if !lex_lt(a, b) && !lex_lt(b, a) {
        lemma_lex_total(a, b);
    }
}

/// An entry whose key comes behind all keys of a sorted collection is new to
/// it and belongs at its end.
pub proof fn lemma_inserted_last(m: Seq<(Seq<u8>, Seq<u8>)>, key: Seq<u8>, value: Seq<u8>)
    requires
        sorted(m),
        m.len() > 0 ==> lex_lt(m.last().0, key),
    ensures
        !has_key(m, key),
        inserted(m, key, value) == m.push((key, value)),
        sorted(m.push((key, value))),
{
    lemma_has_key_at_rank(m, key);
    assert(rank(m, key) == m.len());
    assert(m.insert(m.len() as int, (key, value)) =~= m.push((key, value)));
    lemma_inserted_sorted(m, key, value);
}

/// A union with `entry` in front, where there is a union.
pub open spec fn led_by(entry: (Seq<u8>, Seq<u8>), tail: Option<Seq<(Seq<u8>, Seq<u8>)>>) -> Option<
    Seq<(Seq<u8>, Seq<u8>)>,
> {
    following(seq![entry], tail)
}

/// A union with `front` before it, where there is a union.
pub open spec fn following(
    front: Seq<(Seq<u8>, Seq<u8>)>,
    tail: Option<Seq<(Seq<u8>, Seq<u8>)>>,
) -> Option<Seq<(Seq<u8>, Seq<u8>)>> {
    match tail {
        None => None,
        Some(t) => Some(front + t),
    }
}

/// The union of `a` from its entry `i` on with `b` from its entry `j` on: the
/// entries of both in ascending order of their keys, a key that both hold
/// once. There is none where both hold a key with different values.
pub open spec fn united_from(
    a: Seq<(Seq<u8>, Seq<u8>)>,
    b: Seq<(Seq<u8>, Seq<u8>)>,
    i: int,
    j: int,
) -> Option<Seq<(Seq<u8>, Seq<u8>)>>
    decreases a.len() - i + b.len() - j,
{
    if i < 0 || j < 0 || i > a.len() || j > b.len() {
        None
    } else if i >= a.len() && j >= b.len() {
        Some(Seq::empty())
    } else if j >= b.len() || (i < a.len() && lex_lt(a[i].0, b[j].0)) {
        led_by(a[i], united_from(a, b, i + 1, j))
    } else if i >= a.len() || lex_lt(b[j].0, a[i].0) {
        led_by(b[j], united_from(a, b, i, j + 1))
    } else if a[i].1 == b[j].1 {
        led_by(a[i], united_from(a, b, i + 1, j + 1))
    } else {
        None
    }
}

/// The union of two sorted collections, where they agree on every key that
/// both hold.
pub open spec fn united(a: Seq<(Seq<u8>, Seq<u8>)>, b: Seq<(Seq<u8>, Seq<u8>)>) -> Option<
    Seq<(Seq<u8>, Seq<u8>)>,
> {
    united_from(a, b, 0, 0)
}

/// The two collections hold one key with different values.
pub open spec fn disagree(a: Seq<(Seq<u8>, Seq<u8>)>, b: Seq<(Seq<u8>, Seq<u8>)>) -> bool {
    exists|p: int, q: int|
        0 <= p < a.len() && 0 <= q < b.len() && (#[trigger] a[p]).0 == (#[trigger] b[q]).0 && a[p].1
            != b[q].1
}

proof fn lemma_united_commutes_from(
    a: Seq<(Seq<u8>, Seq<u8>)>,
    b: Seq<(Seq<u8>, Seq<u8>)>,
    i: int,
    j: int,
)
    ensures
        united_from(a, b, i, j) == united_from(b, a, j, i),
    decreases a.len() - i + b.len() - j,
{
    if i < 0 || j < 0 || i > a.len() || j > b.len() {
    } else if i >= a.len() && j >= b.len() {
    } else if j >= b.len() || (i < a.len() && lex_lt(a[i].0, b[j].0)) {
        if j < b.len() {
            lemma_lex_asym(a[i].0, b[j].0);
        }
        lemma_united_commutes_from(a, b, i + 1, j);
    } else if i >= a.len() || lex_lt(b[j].0, a[i].0) {
        if i < a.len() {
            lemma_lex_asym(b[j].0, a[i].0);
        }
        lemma_united_commutes_from(a, b, i, j + 1);
    } else {
        lemma_lex_total(a[i].0, b[j].0);
        lemma_united_commutes_from(a, b, i + 1, j + 1);
    }
}

/// The union of two collections does not depend on which of them comes first.
pub proof fn lemma_united_commutes(a: Seq<(Seq<u8>, Seq<u8>)>, b: Seq<(Seq<u8>, Seq<u8>)>)
    ensures
        united(a, b) == united(b, a),
{
    lemma_united_commutes_from(a, b, 0, 0);
}

proof fn lemma_united_conflict_from(
    a: Seq<(Seq<u8>, Seq<u8>)>,
    b: Seq<(Seq<u8>, Seq<u8>)>,
    i: int,
    j: int,
    p: int,
    q: int,
)
    requires
        sorted(a),
        sorted(b),
        0 <= i <= p < a.len(),
        0 <= j <= q < b.len(),
        a[p].0 == b[q].0,
        a[p].1 != b[q].1,
    ensures
        united_from(a, b, i, j) is None,
    decreases a.len() - i + b.len() - j,
{
    lemma_lex_irreflexive(a[p].0);
    if lex_lt(a[i].0, b[j].0) {
        if i == p {
            if j < q {
                assert(lex_lt(b[j].0, b[q].0));
                lemma_lex_asym(b[j].0, b[q].0);
            }
        } else {
            lemma_united_conflict_from(a, b, i + 1, j, p, q);
        }
    } else if lex_lt(b[j].0, a[i].0) {
        if j == q {
            if i < p {
                assert(lex_lt(a[i].0, a[p].0));
                lemma_lex_asym(a[i].0, a[p].0);
            }
        } else {
            lemma_united_conflict_from(a, b, i, j + 1, p, q);
        }
    } else {
        lemma_lex_total(a[i].0, b[j].0);
        if i == p && j == q {
        } else if i == p {
            assert(lex_lt(b[j].0, b[q].0));
        } else if j == q {
            assert(lex_lt(a[i].0, a[p].0));
        } else if a[i].1 == b[j].1 {
            lemma_united_conflict_from(a, b, i + 1, j + 1, p, q);
        }
    }
}

/// Two sorted collections that hold one key with different values have no
/// union.
pub proof fn lemma_united_conflict(a: Seq<(Seq<u8>, Seq<u8>)>, b: Seq<(Seq<u8>, Seq<u8>)>)
    requires
        sorted(a),
        sorted(b),
        disagree(a, b),
    ensures
        united(a, b) is None,
{
    let (p, q) = choose|p: int, q: int|
        0 <= p < a.len() && 0 <= q < b.len() && (#[trigger] a[p]).0 == (#[trigger] b[q]).0 && a[p].1
            != b[q].1;
    lemma_united_conflict_from(a, b, 0, 0, p, q);
}

proof fn lemma_united_all_from(
    a: Seq<(Seq<u8>, Seq<u8>)>,
    b: Seq<(Seq<u8>, Seq<u8>)>,
    i: int,
    j: int,
    holds: spec_fn((Seq<u8>, Seq<u8>)) -> bool,
)
    requires
        0 <= i <= a.len(),
        0 <= j <= b.len(),
        forall|p: int| i <= p < a.len() ==> holds(#[trigger] a[p]),
        forall|q: int| j <= q < b.len() ==> holds(#[trigger] b[q]),
        united_from(a, b, i, j) is Some,
    ensures
        forall|k: int|
            0 <= k < united_from(a, b, i, j).unwrap().len() ==> holds(
                #[trigger] united_from(a, b, i, j).unwrap()[k],
            ),
    decreases a.len() - i + b.len() - j,
{
    if i >= a.len() && j >= b.len() {
    } else if j >= b.len() || (i < a.len() && lex_lt(a[i].0, b[j].0)) {
        lemma_united_all_from(a, b, i + 1, j, holds);
    } else if i >= a.len() || lex_lt(b[j].0, a[i].0) {
        lemma_united_all_from(a, b, i, j + 1, holds);
    } else {
        lemma_united_all_from(a, b, i + 1, j + 1, holds);
    }
}

/// What holds of every entry of two collections holds of every entry of
/// their union.
pub proof fn lemma_united_all(
    a: Seq<(Seq<u8>, Seq<u8>)>,
    b: Seq<(Seq<u8>, Seq<u8>)>,
    holds: spec_fn((Seq<u8>, Seq<u8>)) -> bool,
)
    requires
        forall|p: int| 0 <= p < a.len() ==> holds(#[trigger] a[p]),
        forall|q: int| 0 <= q < b.len() ==> holds(#[trigger] b[q]),
        united(a, b) is Some,
    ensures
        forall|k: int| 0 <= k < united(a, b).unwrap().len() ==> holds(#[trigger] united(a, b).unwrap()[k]),
{
    lemma_united_all_from(a, b, 0, 0, holds);
}

proof fn lemma_united_sorted_from(
    a: Seq<(Seq<u8>, Seq<u8>)>,
    b: Seq<(Seq<u8>, Seq<u8>)>,
    i: int,
    j: int,
)
    requires
        sorted(a),
        sorted(b),
        0 <= i <= a.len(),
        0 <= j <= b.len(),
        united_from(a, b, i, j) is Some,
    ensures
        sorted(united_from(a, b, i, j).unwrap()),
    decreases a.len() - i + b.len() - j,
{
    let r = united_from(a, b, i, j).unwrap();
    if i >= a.len() && j >= b.len() {
    } else {
        let (first, ni, nj) = if j >= b.len() || (i < a.len() && lex_lt(a[i].0, b[j].0)) {
            (a[i], i + 1, j)
        } else if i >= a.len() || lex_lt(b[j].0, a[i].0) {
            (b[j], i, j + 1)
        } else {
            (a[i], i + 1, j + 1)
        };
        let tail = united_from(a, b, ni, nj).unwrap();
        assert(r == seq![first] + tail);
        lemma_united_sorted_from(a, b, ni, nj);
        let above = |e: (Seq<u8>, Seq<u8>)| lex_lt(first.0, e.0);
        assert forall|p: int| ni <= p < a.len() implies above(#[trigger] a[p]) by {
            if i < a.len() {
                if first == a[i] {
                    assert(lex_lt(a[i].0, a[p].0));
                } else {
                    assert(p >= i);
                    if p > i {
                        assert(lex_lt(a[i].0, a[p].0));
                        lemma_lex_trans(b[j].0, a[i].0, a[p].0);
                    }
                }
            }
        }
        assert forall|q: int| nj <= q < b.len() implies above(#[trigger] b[q]) by {
            if j < b.len() {
                if nj == j + 1 && ni == i {
                    assert(lex_lt(b[j].0, b[q].0));
                } else if nj == j + 1 {
                    lemma_lex_total(a[i].0, b[j].0);
                    assert(lex_lt(b[j].0, b[q].0));
                } else {
                    if q > j {
                        assert(lex_lt(b[j].0, b[q].0));
                        lemma_lex_trans(a[i].0, b[j].0, b[q].0);
                    }
                }
            }
        }
        lemma_united_all_from(a, b, ni, nj, above);
        assert forall|x: int, y: int| 0 <= x < y < r.len() implies lex_lt(
            (#[trigger] r[x]).0,
            (#[trigger] r[y]).0,
        ) by {
            if x == 0 {
                assert(r[y] == tail[y - 1]);
                assert(above(tail[y - 1]));
            } else {
                assert(r[x] == tail[x - 1] && r[y] == tail[y - 1]);
            }
        }
    }
}

proof fn lemma_united_keeps_from(
    a: Seq<(Seq<u8>, Seq<u8>)>,
    b: Seq<(Seq<u8>, Seq<u8>)>,
    i: int,
    j: int,
)
    requires
        0 <= i <= a.len(),
        0 <= j <= b.len(),
        united_from(a, b, i, j) is Some,
    ensures
        forall|p: int| i <= p < a.len() ==> united_from(a, b, i, j).unwrap().contains(#[trigger] a[p]),
        forall|q: int| j <= q < b.len() ==> united_from(a, b, i, j).unwrap().contains(#[trigger] b[q]),
    decreases a.len() - i + b.len() - j,
{
    let r = united_from(a, b, i, j).unwrap();
    if i >= a.len() && j >= b.len() {
    } else {
        let (first, ni, nj) = if j >= b.len() || (i < a.len() && lex_lt(a[i].0, b[j].0)) {
            (a[i], i + 1, j)
        } else if i >= a.len() || lex_lt(b[j].0, a[i].0) {
            (b[j], i, j + 1)
        } else {
            (a[i], i + 1, j + 1)
        };
        let tail = united_from(a, b, ni, nj).unwrap();
        assert(r == seq![first] + tail);
        lemma_united_keeps_from(a, b, ni, nj);
        if ni == i + 1 && nj == j + 1 {
            lemma_lex_total(a[i].0, b[j].0);
            assert(a[i] == b[j]);
        }
        assert(r[0] == first);
        assert forall|p: int| i <= p < a.len() implies r.contains(#[trigger] a[p]) by {
            if p >= ni {
                let k = choose|k: int| 0 <= k < tail.len() && tail[k] == a[p];
                assert(r[k + 1] == a[p]);
            }
        }
        assert forall|q: int| j <= q < b.len() implies r.contains(#[trigger] b[q]) by {
            if q >= nj {
                let k = choose|k: int| 0 <= k < tail.len() && tail[k] == b[q];
                assert(r[k + 1] == b[q]);
            }
        }
    }
}

/// The union of two collections holds the entries of both, and no other.
pub proof fn lemma_united_is_union(a: Seq<(Seq<u8>, Seq<u8>)>, b: Seq<(Seq<u8>, Seq<u8>)>)
    requires
        united(a, b) is Some,
    ensures
        forall|e: (Seq<u8>, Seq<u8>)|
            #[trigger] united(a, b).unwrap().contains(e) <==> (a.contains(e) || b.contains(e)),
{
    let r = united(a, b).unwrap();
    lemma_united_keeps_from(a, b, 0, 0);
    let either = |e: (Seq<u8>, Seq<u8>)| a.contains(e) || b.contains(e);
    assert forall|p: int| 0 <= p < a.len() implies either(#[trigger] a[p]) by {
        assert(a.contains(a[p]));
    }
    assert forall|q: int| 0 <= q < b.len() implies either(#[trigger] b[q]) by {
        assert(b.contains(b[q]));
    }
    lemma_united_all(a, b, either);
    assert forall|e: (Seq<u8>, Seq<u8>)| #[trigger] r.contains(e) <==> (a.contains(e) || b.contains(e)) by {
        if r.contains(e) {
            let k = choose|k: int| 0 <= k < r.len() && r[k] == e;
            assert(either(r[k]));
        }
        if a.contains(e) {
            let p = choose|p: int| 0 <= p < a.len() && a[p] == e;
            assert(r.contains(a[p]));
        }
        if b.contains(e) {
            let q = choose|q: int| 0 <= q < b.len() && b[q] == e;
            assert(r.contains(b[q]));
        }
    }
}

/// The union of two sorted collections is sorted.
pub proof fn lemma_united_sorted(a: Seq<(Seq<u8>, Seq<u8>)>, b: Seq<(Seq<u8>, Seq<u8>)>)
    requires
        sorted(a),
        sorted(b),
        united(a, b) is Some,
    ensures
        sorted(united(a, b).unwrap()),
{
    lemma_united_sorted_from(a, b, 0, 0);
}

/// Finds where an entry with the key `key` belongs.
pub fn find_rank(m: &Vec<Entry>, key: &[u8]) -> (r: usize)
    ensures
        r == rank(entry_views(m@), key@),
        r <= m.len(),
{
    let ghost all = entry_views(m@);
    let mut i: usize = m.len();
    proof {
        assert(all.take(i as int) =~= all);
    }
    while i > 0
        invariant
            i <= m.len(),
            all == entry_views(m@),
            rank(all, key@) == rank(all.take(i as int), key@),
        decreases i,
    {
        let at: Rank = lex_rank(&m[i - 1].key, key);
        proof {
            assert(all.take(i as int).last() == all[i - 1]);
            assert(all.take(i as int).drop_last() =~= all.take(i - 1));
        }
        if at == Rank::Before {
            return i;
        }
        i -= 1;
    }
    0
}

/// An owned copy of an entry.
pub fn copy_entry(e: &Entry) -> (r: Entry)
    ensures
        r@ == e@,
{
    Entry { key: copy_bytes(&e.key), value: copy_bytes(&e.value) }
}

/// An owned copy of a collection.
pub fn copy_entries(m: &Vec<Entry>) -> (r: Vec<Entry>)
    ensures
        entry_views(r@) == entry_views(m@),
{
    let mut out: Vec<Entry> = Vec::new();
    let mut i: usize = 0;
    while i < m.len()
        invariant
            i <= m.len(),
            entry_views(out@) == entry_views(m@).take(i as int),
        decreases m.len() - i,
    {
        let ghost before = entry_views(out@);
        out.push(copy_entry(&m[i]));
        proof {
            assert(entry_views(out@) =~= before.push(m@[i as int]@));
            assert(entry_views(m@).take(i as int + 1) =~= before.push(m@[i as int]@));
        }
        i += 1;
    }
    proof {
        assert(entry_views(m@).take(m@.len() as int) =~= entry_views(m@));
    }
    out
}

/// Puts an entry at its place in a sorted collection, unless its key is
/// there already. Says whether the entry went in.
pub fn insert_entry(m: &mut Vec<Entry>, key: Vec<u8>, value: Vec<u8>) -> (r: bool)
    requires
        sorted(entry_views(old(m)@)),
    ensures
        r == !has_key(entry_views(old(m)@), key@),
        r ==> entry_views(final(m)@) == inserted(entry_views(old(m)@), key@, value@),
        !r ==> final(m)@ == old(m)@,
        sorted(entry_views(final(m)@)),
{
    let ghost before = entry_views(m@);
    let at: usize = find_rank(m, &key);
    proof {
        lemma_has_key_at_rank(before, key@);
    }
    if at < m.len() && bytes_eq(&m[at].key, &key) {
        return false;
    }
    proof {
        lemma_inserted_sorted(before, key@, value@);
    }
    m.insert(at, Entry { key, value });
    proof {
        assert(entry_views(m@) =~= inserted(before, key@, value@));
    }
    true
}

/// The union of two sorted collections, or nothing where they hold one key
/// with different values.
pub fn unite(a: &Vec<Entry>, b: &Vec<Entry>) -> (r: Option<Vec<Entry>>)
    requires
        sorted(entry_views(a@)),
        sorted(entry_views(b@)),
    ensures
        match r {
            Some(m) => united(entry_views(a@), entry_views(b@)) == Some(entry_views(m@)) && sorted(
                entry_views(m@),
            ),
            None => united(entry_views(a@), entry_views(b@)) is None,
        },
{
    let ghost av = entry_views(a@);
    let ghost bv = entry_views(b@);
    let mut out: Vec<Entry> = Vec::new();
    let mut i: usize = 0;
    let mut j: usize = 0;
    proof {
        assert(entry_views(out@) =~= Seq::empty());
        match united(av, bv) {
            Some(t) => {
                assert(Seq::<(Seq<u8>, Seq<u8>)>::empty() + t =~= t);
            },
            None => {},
        }
    }
    while i < a.len() || j < b.len()
        invariant
            i <= a.len(),
            j <= b.len(),
            av == entry_views(a@),
            bv == entry_views(b@),
            united(av, bv) == following(entry_views(out@), united_from(av, bv, i as int, j as int)),
        decreases a.len() - i + b.len() - j,
    {
        let ghost front = entry_views(out@);
        let ghost here = united_from(av, bv, i as int, j as int);
        let mut take_a: bool = false;
        let mut take_b: bool = false;
        if j >= b.len() {
            take_a = true;
        } else if i >= a.len() {
            take_b = true;
        } else {
            match lex_rank(&a[i].key, &b[j].key) {
                Rank::Before => {
                    take_a = true;
                },
                Rank::After => {
                    proof {
                        lemma_lex_asym(bv[j as int].0, av[i as int].0);
                    }
                    take_b = true;
                },
                Rank::Same => {
                    proof {
                        lemma_lex_irreflexive(av[i as int].0);
                    }
                    if !bytes_eq(&a[i].value, &b[j].value) {
                        return None;
                    }
                    take_a = true;
                    take_b = true;
                },
            }
        }
        let ghost first = if take_a {
            av[i as int]
        } else {
            bv[j as int]
        };
        if take_a {
            out.push(copy_entry(&a[i]));
        } else {
            out.push(copy_entry(&b[j]));
        }
        if take_a {
            i += 1;
        }
        if take_b {
            j += 1;
        }
        proof {
            let tail = united_from(av, bv, i as int, j as int);
            assert(here == led_by(first, tail));
            assert(entry_views(out@) =~= front.push(first));
            match tail {
                Some(t) => {
                    assert(front + (seq![first] + t) =~= front.push(first) + t);
                },
                None => {},
            }
        }
    }
    proof {
        assert(entry_views(out@) + Seq::<(Seq<u8>, Seq<u8>)>::empty() =~= entry_views(out@));
        lemma_united_sorted(av, bv);
    }
    Some(out)
}


/// What holds of every entry of a collection and of a new entry holds of
/// every entry once the new one is in.
pub proof fn lemma_inserted_all(
    m: Seq<(Seq<u8>, Seq<u8>)>,
    key: Seq<u8>,
    value: Seq<u8>,
    holds: spec_fn((Seq<u8>, Seq<u8>)) -> bool,
)
    requires
        sorted(m),
        forall|i: int| 0 <= i < m.len() ==> holds(#[trigger] m[i]),
        holds((key, value)),
    ensures
        forall|k: int|
            0 <= k < inserted(m, key, value).len() ==> holds(#[trigger] inserted(m, key, value)[k]),
{
    lemma_rank(m, key);
    let r = rank(m, key);
    let n = inserted(m, key, value);
    assert forall|k: int| 0 <= k < n.len() implies holds(#[trigger] n[k]) by {
        if k < r {
            assert(n[k] == m[k]);
        } else if k == r {
            assert(n[k] == (key, value));
        } else {
            assert(n[k] == m[k - 1]);
        }
    }
}

/// The first entries of a sorted collection are a sorted collection, and the
/// next entry belongs at their end.
pub proof fn lemma_sorted_take(m: Seq<(Seq<u8>, Seq<u8>)>, j: int)
    requires
        sorted(m),
        0 <= j <= m.len(),
    ensures
        sorted(m.take(j)),
        j < m.len() ==> !has_key(m.take(j), m[j].0) && inserted(m.take(j), m[j].0, m[j].1)
            == m.take(j + 1),
{
    let front = m.take(j);
    assert forall|x: int, y: int| 0 <= x < y < front.len() implies lex_lt(
        (#[trigger] front[x]).0,
        (#[trigger] front[y]).0,
    ) by {
        assert(front[x] == m[x] && front[y] == m[y]);
    }
    if j < m.len() {
        if j > 0 {
            assert(front.last() == m[j - 1]);
            assert(lex_lt(m[j - 1].0, m[j].0));
        }
        lemma_inserted_last(front, m[j].0, m[j].1);
        assert(front.push((m[j].0, m[j].1)) =~= m.take(j + 1));
    }
}

} // verus!
