//! Sorted association sequences.
//!
//! The contents of a tree is a sequence of key-value pairs with strictly
//! ascending keys. The three operations here say what the store's
//! operations do: `kvs_lookup` what `search` returns, `kvs_insert` what
//! `insert` leaves behind (overwriting an equal key), `kvs_remove` what
//! `delete` leaves behind.

use vstd::prelude::*;

use crate::bytes::{lex_lt, lemma_lex_transitive, lemma_lex_trichotomy};
use crate::model::{all_above, all_below, kvs_sorted};

verus! {

/// The value associated with `k`, scanning left to right.
pub open spec fn kvs_lookup(kvs: Seq<(Seq<u8>, Seq<u8>)>, k: Seq<u8>) -> Option<Seq<u8>>
    decreases kvs.len(),
{
    if kvs.len() == 0 {
        None
    } else if kvs[0].0 == k {
        Some(kvs[0].1)
    } else {
        kvs_lookup(kvs.drop_first(), k)
    }
}

/// The sequence with `(k, v)` added at its sorted position; an entry with
/// an equal key is overwritten in place.
pub open spec fn kvs_insert(kvs: Seq<(Seq<u8>, Seq<u8>)>, k: Seq<u8>, v: Seq<u8>) -> Seq<
    (Seq<u8>, Seq<u8>),
>
    decreases kvs.len(),
{
    if kvs.len() == 0 {
        seq![(k, v)]
    } else if lex_lt(k, kvs[0].0) {
        seq![(k, v)] + kvs
    } else if k == kvs[0].0 {
        seq![(k, v)] + kvs.drop_first()
    } else {
        seq![kvs[0]] + kvs_insert(kvs.drop_first(), k, v)
    }
}

/// The sequence with the first entry keyed `k`, if any, removed.
pub open spec fn kvs_remove(kvs: Seq<(Seq<u8>, Seq<u8>)>, k: Seq<u8>) -> Seq<(Seq<u8>, Seq<u8>)>
    decreases kvs.len(),
{
    if kvs.len() == 0 {
        Seq::empty()
    } else if kvs[0].0 == k {
        kvs.drop_first()
    } else {
        seq![kvs[0]] + kvs_remove(kvs.drop_first(), k)
    }
}

/// A lookup scans the left part first.
pub proof fn lemma_lookup_concat(a: Seq<(Seq<u8>, Seq<u8>)>, b: Seq<(Seq<u8>, Seq<u8>)>, k: Seq<u8>)
    ensures
        kvs_lookup(a + b, k) == if kvs_lookup(a, k) is Some {
            kvs_lookup(a, k)
        } else {
            kvs_lookup(b, k)
        },
    decreases a.len(),
{
    if a.len() == 0 {
        assert(a + b =~= b);
    } else {
        assert((a + b)[0] == a[0]);
        assert((a + b).drop_first() =~= a.drop_first() + b);
        lemma_lookup_concat(a.drop_first(), b, k);
    }
}

/// Inserting a key above every key of `a` happens to the right of `a`.
pub proof fn lemma_insert_concat_left(
    a: Seq<(Seq<u8>, Seq<u8>)>,
    b: Seq<(Seq<u8>, Seq<u8>)>,
    k: Seq<u8>,
    v: Seq<u8>,
)
    requires
        all_below(a, k),
    ensures
        kvs_insert(a + b, k, v) == a + kvs_insert(b, k, v),
    decreases a.len(),
{
    if a.len() == 0 {
        assert(a + b =~= b);
        assert(a + kvs_insert(b, k, v) =~= kvs_insert(b, k, v));
    } else {
        assert(lex_lt(a[0].0, k));
        lemma_lex_trichotomy(k, a[0].0);
        assert((a + b)[0] == a[0]);
        assert((a + b).drop_first() =~= a.drop_first() + b);
        assert forall|i: int| 0 <= i < a.drop_first().len() implies lex_lt(
            #[trigger] a.drop_first()[i].0,
            k,
        ) by {
            assert(lex_lt(a[i + 1].0, k));
        }
        lemma_insert_concat_left(a.drop_first(), b, k, v);
        assert(kvs_insert(a + b, k, v) == seq![a[0]] + (a.drop_first() + kvs_insert(b, k, v)));
        assert(seq![a[0]] + (a.drop_first() + kvs_insert(b, k, v)) =~= a + kvs_insert(b, k, v));
    }
}

/// Inserting a key below every key of `b` happens to the left of `b`.
pub proof fn lemma_insert_concat_right(
    a: Seq<(Seq<u8>, Seq<u8>)>,
    b: Seq<(Seq<u8>, Seq<u8>)>,
    k: Seq<u8>,
    v: Seq<u8>,
)
    requires
        all_above(b, k),
    ensures
        kvs_insert(a + b, k, v) == kvs_insert(a, k, v) + b,
    decreases a.len(),
{
    if a.len() == 0 {
        assert(a + b =~= b);
        if b.len() == 0 {
            assert(kvs_insert(a + b, k, v) =~= kvs_insert(a, k, v) + b);
        } else {
            assert(lex_lt(k, b[0].0));
            assert(kvs_insert(b, k, v) == seq![(k, v)] + b);
            assert(kvs_insert(a, k, v) == seq![(k, v)]);
            assert(seq![(k, v)] + b =~= kvs_insert(a, k, v) + b);
        }
    } else {
        assert((a + b)[0] == a[0]);
        assert((a + b).drop_first() =~= a.drop_first() + b);
        if lex_lt(k, a[0].0) {
            assert(kvs_insert(a + b, k, v) == seq![(k, v)] + (a + b));
            assert(seq![(k, v)] + (a + b) =~= (seq![(k, v)] + a) + b);
        } else if k == a[0].0 {
            assert(kvs_insert(a + b, k, v) == seq![(k, v)] + (a + b).drop_first());
            assert(seq![(k, v)] + (a.drop_first() + b) =~= (seq![(k, v)] + a.drop_first()) + b);
        } else {
            lemma_insert_concat_right(a.drop_first(), b, k, v);
            assert(kvs_insert(a + b, k, v) == seq![a[0]] + (kvs_insert(a.drop_first(), k, v) + b));
            assert(seq![a[0]] + (kvs_insert(a.drop_first(), k, v) + b) =~= (seq![a[0]] + kvs_insert(
                a.drop_first(),
                k,
                v,
            )) + b);
        }
    }
}

/// Removing a key above every key of `a` happens to the right of `a`.
pub proof fn lemma_remove_concat_left(
    a: Seq<(Seq<u8>, Seq<u8>)>,
    b: Seq<(Seq<u8>, Seq<u8>)>,
    k: Seq<u8>,
)
    requires
        forall|i: int| 0 <= i < a.len() ==> #[trigger] a[i].0 != k,
    ensures
        kvs_remove(a + b, k) == a + kvs_remove(b, k),
    decreases a.len(),
{
    if a.len() == 0 {
        assert(a + b =~= b);
        assert(a + kvs_remove(b, k) =~= kvs_remove(b, k));
    } else {
        assert(a[0].0 != k);
        assert((a + b)[0] == a[0]);
        assert((a + b).drop_first() =~= a.drop_first() + b);
        assert forall|i: int| 0 <= i < a.drop_first().len() implies #[trigger] (
        a.drop_first()[i]).0 != k by {
            assert(a[i + 1].0 != k);
        }
        lemma_remove_concat_left(a.drop_first(), b, k);
        assert(kvs_remove(a + b, k) == seq![a[0]] + (a.drop_first() + kvs_remove(b, k)));
        assert(seq![a[0]] + (a.drop_first() + kvs_remove(b, k)) =~= a + kvs_remove(b, k));
    }
}

/// Removing the last key of a sorted sequence drops its last entry.
pub proof fn lemma_remove_last(kvs: Seq<(Seq<u8>, Seq<u8>)>, k: Seq<u8>)
    requires
        kvs_sorted(kvs),
        kvs.len() >= 1,
        k == kvs.last().0,
    ensures
        kvs_remove(kvs, k) == kvs.drop_last(),
    decreases kvs.len(),
{
    if kvs.len() == 1 {
        assert(kvs[0].0 == k);
        assert(kvs_remove(kvs, k) == kvs.drop_first());
        assert(kvs.drop_first() =~= kvs.drop_last());
    } else {
        assert(lex_lt(kvs[0].0, kvs.last().0));
        lemma_lex_trichotomy(kvs[0].0, k);
        assert(kvs[0].0 != k);
        assert forall|m: int, j: int| 0 <= m < j < kvs.drop_first().len() implies lex_lt(
            kvs.drop_first()[m].0,
            kvs.drop_first()[j].0,
        ) by {
            assert(lex_lt(kvs[m + 1].0, kvs[j + 1].0));
        }
        assert(kvs.drop_first().last() == kvs.last());
        lemma_remove_last(kvs.drop_first(), k);
        assert(kvs_remove(kvs, k) == seq![kvs[0]] + kvs.drop_first().drop_last());
        assert(seq![kvs[0]] + kvs.drop_first().drop_last() =~= kvs.drop_last());
    }
}

/// After an insert, looking the key up finds the inserted value.
pub proof fn lemma_lookup_insert(kvs: Seq<(Seq<u8>, Seq<u8>)>, k: Seq<u8>, v: Seq<u8>)
    ensures
        kvs_lookup(kvs_insert(kvs, k, v), k) == Some(v),
    decreases kvs.len(),
{
    if kvs.len() == 0 {
    } else if lex_lt(k, kvs[0].0) {
        assert(kvs_insert(kvs, k, v)[0] == (k, v));
    } else if k == kvs[0].0 {
        assert(kvs_insert(kvs, k, v)[0] == (k, v));
    } else {
        lemma_lex_trichotomy(k, kvs[0].0);
        lemma_lookup_insert(kvs.drop_first(), k, v);
        let r = kvs_insert(kvs, k, v);
        assert(r == seq![kvs[0]] + kvs_insert(kvs.drop_first(), k, v));
        assert(r[0] == kvs[0]);
        assert(r.drop_first() =~= kvs_insert(kvs.drop_first(), k, v));
    }
}

/// An insert changes no other key's association.
pub proof fn lemma_lookup_insert_other(
    kvs: Seq<(Seq<u8>, Seq<u8>)>,
    k: Seq<u8>,
    v: Seq<u8>,
    q: Seq<u8>,
)
    requires
        q != k,
    ensures
        kvs_lookup(kvs_insert(kvs, k, v), q) == kvs_lookup(kvs, q),
    decreases kvs.len(),
{
    let r = kvs_insert(kvs, k, v);
    if kvs.len() == 0 {
        assert(r == seq![(k, v)]);
        assert(r.drop_first() =~= Seq::<(Seq<u8>, Seq<u8>)>::empty());
        assert(kvs_lookup(r.drop_first(), q) is None);
        assert(kvs_lookup(r, q) is None);
    } else if lex_lt(k, kvs[0].0) {
        assert(r[0] == (k, v));
        assert(r.drop_first() =~= kvs);
        assert(kvs_lookup(r, q) == kvs_lookup(kvs, q));
    } else if k == kvs[0].0 {
        assert(r[0] == (k, v));
        assert(r.drop_first() =~= kvs.drop_first());
        assert(kvs_lookup(r, q) == kvs_lookup(kvs.drop_first(), q));
        assert(kvs_lookup(kvs, q) == kvs_lookup(kvs.drop_first(), q));
    } else {
        lemma_lookup_insert_other(kvs.drop_first(), k, v, q);
        assert(r == seq![kvs[0]] + kvs_insert(kvs.drop_first(), k, v));
        assert(r[0] == kvs[0]);
        assert(r.drop_first() =~= kvs_insert(kvs.drop_first(), k, v));
        if kvs[0].0 == q {
            assert(kvs_lookup(r, q) == Some(kvs[0].1));
        } else {
            assert(kvs_lookup(r, q) == kvs_lookup(r.drop_first(), q));
        }
    }
}

/// After a removal, the key is gone, provided keys were unique (they are,
/// in a sorted sequence).
pub proof fn lemma_lookup_remove(kvs: Seq<(Seq<u8>, Seq<u8>)>, k: Seq<u8>)
    requires
        kvs_sorted(kvs),
    ensures
        kvs_lookup(kvs_remove(kvs, k), k) == None::<Seq<u8>>,
    decreases kvs.len(),
{
    if kvs.len() == 0 {
    } else if kvs[0].0 == k {
        assert forall|i: int| 0 <= i < kvs.drop_first().len() implies #[trigger] (
        kvs.drop_first()[i]).0 != k by {
            assert(lex_lt(kvs[0].0, kvs[i + 1].0));
            lemma_lex_trichotomy(kvs[0].0, kvs[i + 1].0);
        }
        lemma_lookup_all_other(kvs.drop_first(), k);
    } else {
        assert forall|i: int, j: int| 0 <= i < j < kvs.drop_first().len() implies lex_lt(
            kvs.drop_first()[i].0,
            kvs.drop_first()[j].0,
        ) by {
            assert(lex_lt(kvs[i + 1].0, kvs[j + 1].0));
        }
        lemma_lookup_remove(kvs.drop_first(), k);
        let r = kvs_remove(kvs, k);
        assert(r == seq![kvs[0]] + kvs_remove(kvs.drop_first(), k));
        assert(r[0] == kvs[0]);
        assert(r.drop_first() =~= kvs_remove(kvs.drop_first(), k));
    }
}

/// A lookup misses when no entry carries the key.
pub proof fn lemma_lookup_all_other(kvs: Seq<(Seq<u8>, Seq<u8>)>, k: Seq<u8>)
    requires
        forall|i: int| 0 <= i < kvs.len() ==> #[trigger] kvs[i].0 != k,
    ensures
        kvs_lookup(kvs, k) == None::<Seq<u8>>,
    decreases kvs.len(),
{
    if kvs.len() == 0 {
    } else {
        assert(kvs[0].0 != k);
        assert forall|i: int| 0 <= i < kvs.drop_first().len() implies #[trigger] (
        kvs.drop_first()[i]).0 != k by {
            assert(kvs[i + 1].0 != k);
        }
        lemma_lookup_all_other(kvs.drop_first(), k);
    }
}

/// A removal changes no other key's association.
pub proof fn lemma_lookup_remove_other(kvs: Seq<(Seq<u8>, Seq<u8>)>, k: Seq<u8>, q: Seq<u8>)
    requires
        q != k,
    ensures
        kvs_lookup(kvs_remove(kvs, k), q) == kvs_lookup(kvs, q),
    decreases kvs.len(),
{
    if kvs.len() == 0 {
    } else if kvs[0].0 == k {
        assert(kvs[0].0 != q);
    } else {
        lemma_lookup_remove_other(kvs.drop_first(), k, q);
        let r = kvs_remove(kvs, k);
        assert(r == seq![kvs[0]] + kvs_remove(kvs.drop_first(), k));
        assert(r[0] == kvs[0]);
        assert(r.drop_first() =~= kvs_remove(kvs.drop_first(), k));
    }
}

/// Removing an absent key changes nothing.
pub proof fn lemma_remove_absent(kvs: Seq<(Seq<u8>, Seq<u8>)>, k: Seq<u8>)
    requires
        kvs_lookup(kvs, k) is None,
    ensures
        kvs_remove(kvs, k) == kvs,
    decreases kvs.len(),
{
    if kvs.len() == 0 {
        assert(kvs_remove(kvs, k) =~= kvs);
    } else {
        assert(kvs[0].0 != k);
        lemma_remove_absent(kvs.drop_first(), k);
        assert(kvs_remove(kvs, k) == seq![kvs[0]] + kvs.drop_first());
        assert(seq![kvs[0]] + kvs.drop_first() =~= kvs);
    }
}

/// An insert keeps the keys strictly ascending.
pub proof fn lemma_insert_sorted(kvs: Seq<(Seq<u8>, Seq<u8>)>, k: Seq<u8>, v: Seq<u8>)
    requires
        kvs_sorted(kvs),
    ensures
        kvs_sorted(kvs_insert(kvs, k, v)),
    decreases kvs.len(),
{
    let r = kvs_insert(kvs, k, v);
    if kvs.len() == 0 {
    } else if lex_lt(k, kvs[0].0) {
        assert(r == seq![(k, v)] + kvs);
        assert forall|i: int, j: int| 0 <= i < j < r.len() implies lex_lt(r[i].0, r[j].0) by {
            if i == 0 {
                if j > 1 {
                    lemma_lex_transitive(k, kvs[0].0, kvs[j - 1].0);
                }
            } else {
                assert(lex_lt(kvs[i - 1].0, kvs[j - 1].0));
            }
        }
    } else if k == kvs[0].0 {
        assert(r == seq![(k, v)] + kvs.drop_first());
        assert forall|i: int, j: int| 0 <= i < j < r.len() implies lex_lt(r[i].0, r[j].0) by {
            if i == 0 {
                assert(lex_lt(kvs[0].0, kvs[j].0));
            } else {
                assert(lex_lt(kvs[i].0, kvs[j].0));
            }
        }
    } else {
        lemma_lex_trichotomy(k, kvs[0].0);
        assert forall|i: int, j: int| 0 <= i < j < kvs.drop_first().len() implies lex_lt(
            kvs.drop_first()[i].0,
            kvs.drop_first()[j].0,
        ) by {
            assert(lex_lt(kvs[i + 1].0, kvs[j + 1].0));
        }
        lemma_insert_sorted(kvs.drop_first(), k, v);
        lemma_insert_above(kvs.drop_first(), k, v, kvs[0].0);
        assert(r == seq![kvs[0]] + kvs_insert(kvs.drop_first(), k, v));
        let t = kvs_insert(kvs.drop_first(), k, v);
        assert forall|i: int, j: int| 0 <= i < j < r.len() implies lex_lt(r[i].0, r[j].0) by {
            if i == 0 {
                assert(lex_lt(kvs[0].0, t[j - 1].0));
            } else {
                assert(lex_lt(t[i - 1].0, t[j - 1].0));
            }
        }
    }
}

/// An insert above a bound stays above it.
pub proof fn lemma_insert_above(
    kvs: Seq<(Seq<u8>, Seq<u8>)>,
    k: Seq<u8>,
    v: Seq<u8>,
    lo: Seq<u8>,
)
    requires
        all_above(kvs, lo),
        lex_lt(lo, k),
    ensures
        all_above(kvs_insert(kvs, k, v), lo),
    decreases kvs.len(),
{
    let r = kvs_insert(kvs, k, v);
    if kvs.len() == 0 {
    } else if lex_lt(k, kvs[0].0) {
        assert forall|i: int| 0 <= i < r.len() implies lex_lt(lo, #[trigger] r[i].0) by {
            if i > 0 {
                assert(lex_lt(lo, kvs[i - 1].0));
            }
        }
    } else if k == kvs[0].0 {
        assert forall|i: int| 0 <= i < r.len() implies lex_lt(lo, #[trigger] r[i].0) by {
            if i > 0 {
                assert(lex_lt(lo, kvs[i].0));
            }
        }
    } else {
        assert forall|i: int| 0 <= i < kvs.drop_first().len() implies lex_lt(
            lo,
            #[trigger] kvs.drop_first()[i].0,
        ) by {
            assert(lex_lt(lo, kvs[i + 1].0));
        }
        lemma_insert_above(kvs.drop_first(), k, v, lo);
        let t = kvs_insert(kvs.drop_first(), k, v);
        assert forall|i: int| 0 <= i < r.len() implies lex_lt(lo, #[trigger] r[i].0) by {
            if i == 0 {
                assert(lex_lt(lo, kvs[0].0));
            } else {
                assert(lex_lt(lo, t[i - 1].0));
            }
        }
    }
}

/// An insert below a bound stays below it.
pub proof fn lemma_insert_below(
    kvs: Seq<(Seq<u8>, Seq<u8>)>,
    k: Seq<u8>,
    v: Seq<u8>,
    hi: Seq<u8>,
)
    requires
        all_below(kvs, hi),
        lex_lt(k, hi),
    ensures
        all_below(kvs_insert(kvs, k, v), hi),
    decreases kvs.len(),
{
    let r = kvs_insert(kvs, k, v);
    if kvs.len() == 0 {
    } else if lex_lt(k, kvs[0].0) {
        assert forall|i: int| 0 <= i < r.len() implies lex_lt(#[trigger] r[i].0, hi) by {
            if i > 0 {
                assert(lex_lt(kvs[i - 1].0, hi));
            }
        }
    } else if k == kvs[0].0 {
        assert forall|i: int| 0 <= i < r.len() implies lex_lt(#[trigger] r[i].0, hi) by {
            if i > 0 {
                assert(lex_lt(kvs[i].0, hi));
            }
        }
    } else {
        assert forall|i: int| 0 <= i < kvs.drop_first().len() implies lex_lt(
            #[trigger] kvs.drop_first()[i].0,
            hi,
        ) by {
            assert(lex_lt(kvs[i + 1].0, hi));
        }
        lemma_insert_below(kvs.drop_first(), k, v, hi);
        let t = kvs_insert(kvs.drop_first(), k, v);
        assert forall|i: int| 0 <= i < r.len() implies lex_lt(#[trigger] r[i].0, hi) by {
            if i == 0 {
                assert(lex_lt(kvs[0].0, hi));
            } else {
                assert(lex_lt(t[i - 1].0, hi));
            }
        }
    }
}

/// A removal keeps the keys strictly ascending, and within any bounds.
pub proof fn lemma_remove_sorted(kvs: Seq<(Seq<u8>, Seq<u8>)>, k: Seq<u8>)
    requires
        kvs_sorted(kvs),
    ensures
        kvs_sorted(kvs_remove(kvs, k)),
        forall|x: Seq<u8>| all_below(kvs, x) ==> all_below(kvs_remove(kvs, k), x),
        forall|x: Seq<u8>| all_above(kvs, x) ==> all_above(kvs_remove(kvs, k), x),
        kvs.len() - 1 <= kvs_remove(kvs, k).len() <= kvs.len(),
    decreases kvs.len(),
{
    let r = kvs_remove(kvs, k);
    if kvs.len() == 0 {
    } else if kvs[0].0 == k {
        assert forall|i: int, j: int| 0 <= i < j < r.len() implies lex_lt(r[i].0, r[j].0) by {
            assert(lex_lt(kvs[i + 1].0, kvs[j + 1].0));
        }
        assert forall|x: Seq<u8>| all_below(kvs, x) implies all_below(r, x) by {
            assert forall|i: int| 0 <= i < r.len() implies lex_lt(#[trigger] r[i].0, x) by {
                assert(lex_lt(kvs[i + 1].0, x));
            }
        }
        assert forall|x: Seq<u8>| all_above(kvs, x) implies all_above(r, x) by {
            assert forall|i: int| 0 <= i < r.len() implies lex_lt(x, #[trigger] r[i].0) by {
                assert(lex_lt(x, kvs[i + 1].0));
            }
        }
    } else {
        assert forall|i: int, j: int| 0 <= i < j < kvs.drop_first().len() implies lex_lt(
            kvs.drop_first()[i].0,
            kvs.drop_first()[j].0,
        ) by {
            assert(lex_lt(kvs[i + 1].0, kvs[j + 1].0));
        }
        lemma_remove_sorted(kvs.drop_first(), k);
        let t = kvs_remove(kvs.drop_first(), k);
        assert(r == seq![kvs[0]] + t);
        assert forall|i: int| 0 <= i < t.len() implies lex_lt(kvs[0].0, #[trigger] t[i].0) by {
            assert(all_above(kvs.drop_first(), kvs[0].0)) by {
                assert forall|m: int| 0 <= m < kvs.drop_first().len() implies lex_lt(
                    kvs[0].0,
                    #[trigger] kvs.drop_first()[m].0,
                ) by {
                    assert(lex_lt(kvs[0].0, kvs[m + 1].0));
                }
            }
        }
        assert forall|i: int, j: int| 0 <= i < j < r.len() implies lex_lt(r[i].0, r[j].0) by {
            if i == 0 {
                assert(lex_lt(kvs[0].0, t[j - 1].0));
            } else {
                assert(lex_lt(t[i - 1].0, t[j - 1].0));
            }
        }
        assert forall|x: Seq<u8>| all_below(kvs, x) implies all_below(r, x) by {
            assert forall|m: int| 0 <= m < kvs.drop_first().len() implies lex_lt(
                #[trigger] kvs.drop_first()[m].0,
                x,
            ) by {
                assert(lex_lt(kvs[m + 1].0, x));
            }
            assert(all_below(kvs.drop_first(), x));
            assert forall|i: int| 0 <= i < r.len() implies lex_lt(#[trigger] r[i].0, x) by {
                if i == 0 {
                    assert(lex_lt(kvs[0].0, x));
                } else {
                    assert(lex_lt(t[i - 1].0, x));
                }
            }
        }
        assert forall|x: Seq<u8>| all_above(kvs, x) implies all_above(r, x) by {
            assert forall|m: int| 0 <= m < kvs.drop_first().len() implies lex_lt(
                x,
                #[trigger] kvs.drop_first()[m].0,
            ) by {
                assert(lex_lt(x, kvs[m + 1].0));
            }
            assert(all_above(kvs.drop_first(), x));
            assert forall|i: int| 0 <= i < r.len() implies lex_lt(x, #[trigger] r[i].0) by {
                if i == 0 {
                    assert(lex_lt(x, kvs[0].0));
                } else {
                    assert(lex_lt(x, t[i - 1].0));
                }
            }
        }
    }
}

/// Lookup succeeds exactly on the keys present, with the paired value.
pub proof fn lemma_lookup_index(kvs: Seq<(Seq<u8>, Seq<u8>)>, i: int)
    requires
        kvs_sorted(kvs),
        0 <= i < kvs.len(),
    ensures
        kvs_lookup(kvs, kvs[i].0) == Some(kvs[i].1),
    decreases kvs.len(),
{
    if i == 0 {
    } else {
        assert(lex_lt(kvs[0].0, kvs[i].0));
        lemma_lex_trichotomy(kvs[0].0, kvs[i].0);
        assert forall|m: int, j: int| 0 <= m < j < kvs.drop_first().len() implies lex_lt(
            kvs.drop_first()[m].0,
            kvs.drop_first()[j].0,
        ) by {
            assert(lex_lt(kvs[m + 1].0, kvs[j + 1].0));
        }
        lemma_lookup_index(kvs.drop_first(), i - 1);
    }
}

/// The length an insert leaves behind: one more entry on a new key, the
/// same count on an overwrite.
pub proof fn lemma_insert_len(kvs: Seq<(Seq<u8>, Seq<u8>)>, k: Seq<u8>, v: Seq<u8>)
    requires
        kvs_sorted(kvs),
    ensures
        kvs_lookup(kvs, k) is Some ==> kvs_insert(kvs, k, v).len() == kvs.len(),
        kvs_lookup(kvs, k) is None ==> kvs_insert(kvs, k, v).len() == kvs.len() + 1,
    decreases kvs.len(),
{
    if kvs.len() == 0 {
    } else if lex_lt(k, kvs[0].0) {
        lemma_lex_trichotomy(k, kvs[0].0);
        assert forall|i: int| 0 <= i < kvs.len() implies #[trigger] kvs[i].0 != k by {
            if i > 0 {
                assert(lex_lt(kvs[0].0, kvs[i].0));
                lemma_lex_transitive(k, kvs[0].0, kvs[i].0);
            }
            lemma_lex_trichotomy(k, kvs[i].0);
        }
        lemma_lookup_all_other(kvs, k);
    } else if k == kvs[0].0 {
    } else {
        lemma_lex_trichotomy(k, kvs[0].0);
        assert forall|m: int, j: int| 0 <= m < j < kvs.drop_first().len() implies lex_lt(
            kvs.drop_first()[m].0,
            kvs.drop_first()[j].0,
        ) by {
            assert(lex_lt(kvs[m + 1].0, kvs[j + 1].0));
        }
        lemma_insert_len(kvs.drop_first(), k, v);
    }
}

} // verus!
