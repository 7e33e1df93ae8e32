//! Routing a key through an internal node.
//!
//! Descending for a key `k`, the tree steps into child `i`, where `i` is
//! the rank of `k` among the node's keys. These lemmas say that a lookup,
//! an insert or a removal on the whole node's contents is the same
//! operation on child `i`'s contents, framed by the untouched parts.

use vstd::prelude::*;

use crate::bytes::{lex_lt, lemma_lex_transitive, lemma_lex_trichotomy};
use crate::kvs::{
    kvs_lookup, kvs_insert, lemma_lookup_concat, lemma_lookup_all_other,
    lemma_insert_concat_left, lemma_insert_concat_right,
};
use crate::model::{
    all_above, all_below, inter_kvs, lemma_all_above_weaken, lemma_all_below_weaken,
    lemma_above_ne, lemma_below_ne, lemma_inter_above, lemma_inter_below, lemma_inter_split,
    node_kvs_in, node_wf_in, subtree_kvs, subtree_wf, lemma_subtree_frame, lemma_inter_frame,
    lemma_node_at_frame, lemma_inter_last_key, min_filled, agree_past_header, node_sorted,
};
use crate::codec::spec_node_at;
use crate::node::NodeV;

verus! {

/// `i` is the rank of `k` among the node's keys: all keys before `i` lie
/// below `k`, and the key at `i`, if any, does not.
pub open spec fn is_rank(n: NodeV, k: Seq<u8>, i: int) -> bool {
    &&& 0 <= i <= n.keys.len()
    &&& (forall|j: int| 0 <= j < i ==> lex_lt(#[trigger] n.keys[j], k))
    &&& (i < n.keys.len() ==> !lex_lt(n.keys[i], k))
}

/// The part of an internal node's contents left of child `i`.
pub open spec fn left_part(disk: Seq<u8>, n: NodeV, hc: nat, i: int) -> Seq<(Seq<u8>, Seq<u8>)> {
    inter_kvs(disk, n.keys.take(i), n.values.take(i), n.children.take(i), hc)
}

/// The part of an internal node's contents right of child `i`: the
/// separator entry at `i` and everything beyond.
pub open spec fn right_part(disk: Seq<u8>, n: NodeV, hc: nat, i: int) -> Seq<(Seq<u8>, Seq<u8>)> {
    if i < n.keys.len() {
        seq![(n.keys[i], n.values[i])] + inter_kvs(
            disk,
            n.keys.skip(i + 1),
            n.values.skip(i + 1),
            n.children.skip(i + 1),
            hc,
        )
    } else {
        Seq::empty()
    }
}

/// An internal node's contents split around child `i`.
pub proof fn lemma_node_split(disk: Seq<u8>, n: NodeV, h: nat, i: int)
    requires
        node_wf_in(disk, n, h),
        !n.leaf,
        0 <= i <= n.keys.len(),
    ensures
        node_kvs_in(disk, n, h) == left_part(disk, n, (h - 1) as nat, i) + subtree_kvs(
            disk,
            n.children[i],
            (h - 1) as nat,
        ) + right_part(disk, n, (h - 1) as nat, i),
{
    let hc = (h - 1) as nat;
    lemma_inter_split(disk, n.keys, n.values, n.children, hc, i);
    let rest = inter_kvs(disk, n.keys.skip(i), n.values.skip(i), n.children.skip(i), hc);
    assert(n.children.skip(i).len() == n.keys.len() + 1 - i);
    assert(n.children.skip(i)[0] == n.children[i]);
    if i < n.keys.len() {
        assert(n.keys.skip(i)[0] == n.keys[i]);
        assert(n.values.skip(i)[0] == n.values[i]);
        assert(n.keys.skip(i).drop_first() =~= n.keys.skip(i + 1));
        assert(n.values.skip(i).drop_first() =~= n.values.skip(i + 1));
        assert(n.children.skip(i).drop_first() =~= n.children.skip(i + 1));
        assert(rest == subtree_kvs(disk, n.children[i], hc) + seq![(n.keys[i], n.values[i])]
            + inter_kvs(disk, n.keys.skip(i + 1), n.values.skip(i + 1), n.children.skip(i + 1), hc));
        assert(left_part(disk, n, hc, i) + (subtree_kvs(disk, n.children[i], hc) + seq![
            (n.keys[i], n.values[i])] + inter_kvs(disk, n.keys.skip(i + 1), n.values.skip(i + 1),
            n.children.skip(i + 1), hc)) =~= left_part(disk, n, hc, i) + subtree_kvs(
            disk,
            n.children[i],
            hc,
        ) + right_part(disk, n, hc, i));
    } else {
        assert(n.keys.skip(i).len() == 0);
        assert(rest == subtree_kvs(disk, n.children[i], hc));
        assert(left_part(disk, n, hc, i) + subtree_kvs(disk, n.children[i], hc) + right_part(
            disk,
            n,
            hc,
            i,
        ) =~= left_part(disk, n, hc, i) + subtree_kvs(disk, n.children[i], hc));
    }
}

/// At the rank of `k`, every key left of child `i` lies below `k`; when
/// `k` is not the separator at `i`, every key right of child `i` lies
/// above `k`.
pub proof fn lemma_rank_bounds(disk: Seq<u8>, n: NodeV, h: nat, k: Seq<u8>, i: int)
    requires
        node_wf_in(disk, n, h),
        !n.leaf,
        is_rank(n, k, i),
    ensures
        all_below(left_part(disk, n, (h - 1) as nat, i), k),
        (i == n.keys.len() || n.keys[i] != k) ==> all_above(
            right_part(disk, n, (h - 1) as nat, i),
            k,
        ),
{
    let hc = (h - 1) as nat;
    assert forall|j: int| 0 <= j < n.children.take(i).len() implies all_below(
        subtree_kvs(disk, #[trigger] n.children.take(i)[j], hc),
        k,
    ) by {
        assert(n.children.take(i)[j] == n.children[j]);
        assert(all_below(subtree_kvs(disk, n.children[j], hc), n.keys[j]));
        lemma_all_below_weaken(subtree_kvs(disk, n.children[j], hc), n.keys[j], k);
    }
    assert forall|j: int| 0 <= j < n.keys.take(i).len() implies lex_lt(
        #[trigger] n.keys.take(i)[j],
        k,
    ) by {
        assert(n.keys.take(i)[j] == n.keys[j]);
    }
    lemma_inter_below(disk, n.keys.take(i), n.values.take(i), n.children.take(i), hc, k);
    if i == n.keys.len() || n.keys[i] != k {
        if i < n.keys.len() {
            assert(lex_lt(k, n.keys[i])) by {
                lemma_lex_trichotomy(n.keys[i], k);
            }
            assert forall|j: int| 0 <= j < n.keys.skip(i + 1).len() implies lex_lt(
                k,
                #[trigger] n.keys.skip(i + 1)[j],
            ) by {
                assert(n.keys.skip(i + 1)[j] == n.keys[i + 1 + j]);
                assert(lex_lt(n.keys[i], n.keys[i + 1 + j]));
                lemma_lex_transitive(k, n.keys[i], n.keys[i + 1 + j]);
            }
            assert forall|j: int| 0 <= j < n.children.skip(i + 1).len() implies all_above(
                subtree_kvs(disk, #[trigger] n.children.skip(i + 1)[j], hc),
                k,
            ) by {
                assert(n.children.skip(i + 1)[j] == n.children[i + 1 + j]);
                assert(all_above(subtree_kvs(disk, n.children[i + 1 + j], hc), n.keys[i + j]));
                if j == 0 {
                    lemma_all_above_weaken(
                        subtree_kvs(disk, n.children[i + 1 + j], hc),
                        k,
                        n.keys[i],
                    );
                } else {
                    assert(lex_lt(n.keys[i], n.keys[i + j]));
                    lemma_lex_transitive(k, n.keys[i], n.keys[i + j]);
                    lemma_all_above_weaken(
                        subtree_kvs(disk, n.children[i + 1 + j], hc),
                        k,
                        n.keys[i + j],
                    );
                }
            }
            lemma_inter_above(
                disk,
                n.keys.skip(i + 1),
                n.values.skip(i + 1),
                n.children.skip(i + 1),
                hc,
                k,
            );
            assert forall|j: int| 0 <= j < right_part(disk, n, hc, i).len() implies lex_lt(
                k,
                #[trigger] right_part(disk, n, hc, i)[j].0,
            ) by {
                let rp = right_part(disk, n, hc, i);
                if j == 0 {
                    assert(rp[0] == (n.keys[i], n.values[i]));
                } else {
                    assert(rp[j] == inter_kvs(
                        disk,
                        n.keys.skip(i + 1),
                        n.values.skip(i + 1),
                        n.children.skip(i + 1),
                        hc,
                    )[j - 1]);
                }
            }
        }
    }
}

/// Looking `k` up in an internal node's contents answers from child `i`,
/// unless the separator at `i` is `k` itself.
pub proof fn lemma_route_lookup(disk: Seq<u8>, n: NodeV, h: nat, k: Seq<u8>, i: int)
    requires
        node_wf_in(disk, n, h),
        !n.leaf,
        is_rank(n, k, i),
    ensures
        i < n.keys.len() && n.keys[i] == k ==> kvs_lookup(node_kvs_in(disk, n, h), k) == Some(
            n.values[i],
        ),
        (i == n.keys.len() || n.keys[i] != k) ==> kvs_lookup(node_kvs_in(disk, n, h), k)
            == kvs_lookup(subtree_kvs(disk, n.children[i], (h - 1) as nat), k),
{
    let hc = (h - 1) as nat;
    lemma_node_split(disk, n, h, i);
    lemma_rank_bounds(disk, n, h, k, i);
    let lp = left_part(disk, n, hc, i);
    let mid = subtree_kvs(disk, n.children[i], hc);
    let rp = right_part(disk, n, hc, i);
    lemma_below_ne(lp, k);
    lemma_lookup_all_other(lp, k);
    lemma_lookup_concat(lp, mid + rp, k);
    assert(lp + mid + rp =~= lp + (mid + rp));
    lemma_lookup_concat(mid, rp, k);
    if i < n.keys.len() && n.keys[i] == k {
        assert(all_below(mid, k));
        lemma_below_ne(mid, k);
        lemma_lookup_all_other(mid, k);
        assert(rp[0] == (n.keys[i], n.values[i]));
        assert(kvs_lookup(rp, k) == Some(n.values[i]));
    } else {
        lemma_above_ne(rp, k);
        lemma_lookup_all_other(rp, k);
    }
}

/// Inserting `k` into an internal node's contents inserts into child `i`,
/// unless the separator at `i` is `k` itself, where the entry's value is
/// replaced in place.
pub proof fn lemma_route_insert(
    disk: Seq<u8>,
    n: NodeV,
    h: nat,
    k: Seq<u8>,
    v: Seq<u8>,
    i: int,
)
    requires
        node_wf_in(disk, n, h),
        !n.leaf,
        is_rank(n, k, i),
    ensures
        i < n.keys.len() && n.keys[i] == k ==> kvs_insert(node_kvs_in(disk, n, h), k, v)
            == left_part(disk, n, (h - 1) as nat, i) + subtree_kvs(
            disk,
            n.children[i],
            (h - 1) as nat,
        ) + seq![(k, v)] + inter_kvs(
            disk,
            n.keys.skip(i + 1),
            n.values.skip(i + 1),
            n.children.skip(i + 1),
            (h - 1) as nat,
        ),
        (i == n.keys.len() || n.keys[i] != k) ==> kvs_insert(node_kvs_in(disk, n, h), k, v)
            == left_part(disk, n, (h - 1) as nat, i) + kvs_insert(
            subtree_kvs(disk, n.children[i], (h - 1) as nat),
            k,
            v,
        ) + right_part(disk, n, (h - 1) as nat, i),
{
    let hc = (h - 1) as nat;
    lemma_node_split(disk, n, h, i);
    lemma_rank_bounds(disk, n, h, k, i);
    let lp = left_part(disk, n, hc, i);
    let mid = subtree_kvs(disk, n.children[i], hc);
    let rp = right_part(disk, n, hc, i);
    if i < n.keys.len() && n.keys[i] == k {
        assert(all_below(mid, k));
        crate::model::lemma_all_below_concat(lp, mid, k);
        assert(lp + mid + rp =~= (lp + mid) + rp);
        lemma_insert_concat_left(lp + mid, rp, k, v);
        let rest = inter_kvs(disk, n.keys.skip(i + 1), n.values.skip(i + 1),
            n.children.skip(i + 1), hc);
        assert(rp == seq![(n.keys[i], n.values[i])] + rest);
        assert(rp[0] == (n.keys[i], n.values[i]));
        lemma_lex_trichotomy(k, rp[0].0);
        assert(kvs_insert(rp, k, v) == seq![(k, v)] + rp.drop_first());
        assert(rp.drop_first() =~= rest);
        assert((lp + mid) + (seq![(k, v)] + rest) =~= lp + mid + seq![(k, v)] + rest);
    } else {
        lemma_insert_concat_left(lp, mid + rp, k, v);
        assert(lp + mid + rp =~= lp + (mid + rp));
        lemma_insert_concat_right(mid, rp, k, v);
        assert(lp + (kvs_insert(mid, k, v) + rp) =~= lp + kvs_insert(mid, k, v) + rp);
    }
}

/// Replacing child `i` with a rewritten subtree on a grown image keeps
/// the node well-formed.
#[verifier::rlimit(100)]
#[verifier::spinoff_prover]
pub proof fn lemma_child_update_wf(
    d1: Seq<u8>,
    d2: Seq<u8>,
    n: NodeV,
    n2: NodeV,
    h: nat,
    i: int,
    c2: u64,
)
    requires
        node_wf_in(d1, n, h),
        !n.leaf,
        0 <= i < n.children.len(),
        agree_past_header(d2, d1),
        n2.keys == n.keys,
        n2.values == n.values,
        n2.leaf == n.leaf,
        n2.children == n.children.update(i, c2),
        subtree_wf(d2, c2, (h - 1) as nat),
        min_filled(d2, c2),
        i > 0 ==> all_above(subtree_kvs(d2, c2, (h - 1) as nat), n.keys[i - 1]),
        i < n.keys.len() ==> all_below(subtree_kvs(d2, c2, (h - 1) as nat), n.keys[i]),
    ensures
        node_wf_in(d2, n2, h),
{
    let hc = (h - 1) as nat;
    assert(n2.children.len() == n.children.len());
    assert forall|j: int| 0 <= j < n2.children.len() implies subtree_wf(
        d2,
        #[trigger] n2.children[j],
        hc,
    ) by {
        if j != i {
            assert(n2.children[j] == n.children[j]);
            assert(subtree_wf(d1, n.children[j], hc));
            lemma_subtree_frame(d1, d2, n.children[j], hc);
        }
    }
    assert forall|j: int| 0 <= j < n2.children.len() implies min_filled(
        d2,
        #[trigger] n2.children[j],
    ) by {
        if j != i {
            assert(n2.children[j] == n.children[j]);
            assert(subtree_wf(d1, n.children[j], hc));
            assert(min_filled(d1, n.children[j]));
            lemma_node_at_frame(d1, d2, n.children[j]);
        }
    }
    assert forall|j: int| 0 <= j < n2.keys.len() implies all_below(
        subtree_kvs(d2, n2.children[j], hc),
        #[trigger] n2.keys[j],
    ) by {
        if j == i {
            assert(n2.children[j] == c2);
            assert(n2.keys[j] == n.keys[i]);
        } else {
            assert(n2.children[j] == n.children[j]);
            assert(subtree_wf(d1, n.children[j], hc));
            assert(all_below(subtree_kvs(d1, n.children[j], hc), n.keys[j]));
            lemma_subtree_frame(d1, d2, n.children[j], hc);
        }
    }
    assert forall|j: int| 0 <= j < n2.keys.len() implies all_above(
        subtree_kvs(d2, n2.children[j + 1], hc),
        #[trigger] n2.keys[j],
    ) by {
        if j + 1 == i {
            assert(n2.children[j + 1] == c2);
            assert(n2.keys[j] == n.keys[i - 1]);
        } else {
            assert(n2.children[j + 1] == n.children[j + 1]);
            assert(subtree_wf(d1, n.children[j + 1], hc));
            assert(all_above(subtree_kvs(d1, n.children[j + 1], hc), n.keys[j]));
            lemma_subtree_frame(d1, d2, n.children[j + 1], hc);
        }
    }
    assert(node_wf_in(d2, n2, h));
}

/// Replacing child `i` with a rewritten subtree changes the node's
/// contents only in that child's stretch.
#[verifier::rlimit(100)]
#[verifier::spinoff_prover]
pub proof fn lemma_child_update_kvs(
    d1: Seq<u8>,
    d2: Seq<u8>,
    n: NodeV,
    n2: NodeV,
    h: nat,
    i: int,
    c2: u64,
)
    requires
        node_wf_in(d1, n, h),
        node_wf_in(d2, n2, h),
        !n.leaf,
        0 <= i < n.children.len(),
        agree_past_header(d2, d1),
        n2.keys == n.keys,
        n2.values == n.values,
        n2.leaf == n.leaf,
        n2.children == n.children.update(i, c2),
    ensures
        node_kvs_in(d2, n2, h) == left_part(d1, n, (h - 1) as nat, i) + subtree_kvs(
            d2,
            c2,
            (h - 1) as nat,
        ) + right_part(d1, n, (h - 1) as nat, i),
        node_kvs_in(d1, n, h) == left_part(d1, n, (h - 1) as nat, i) + subtree_kvs(
            d1,
            n.children[i],
            (h - 1) as nat,
        ) + right_part(d1, n, (h - 1) as nat, i),
{
    let hc = (h - 1) as nat;
    lemma_node_split(d1, n, h, i);
    lemma_node_split(d2, n2, h, i);
    assert(n2.children[i] == c2);
    assert(left_part(d2, n2, hc, i) == left_part(d1, n, hc, i)) by {
        assert(n2.keys.take(i) =~= n.keys.take(i));
        assert(n2.values.take(i) =~= n.values.take(i));
        assert(n2.children.take(i) =~= n.children.take(i));
        assert forall|j: int| 0 <= j < n.children.take(i).len() implies subtree_wf(
            d1,
            #[trigger] n.children.take(i)[j],
            hc,
        ) by {
            assert(n.children.take(i)[j] == n.children[j]);
        }
        lemma_inter_frame(d1, d2, n.keys.take(i), n.values.take(i), n.children.take(i), hc);
    }
    assert(right_part(d2, n2, hc, i) == right_part(d1, n, hc, i)) by {
        if i < n.keys.len() {
            assert(n2.keys.skip(i + 1) =~= n.keys.skip(i + 1));
            assert(n2.values.skip(i + 1) =~= n.values.skip(i + 1));
            assert(n2.children.skip(i + 1) =~= n.children.skip(i + 1));
            assert forall|j: int| 0 <= j < n.children.skip(i + 1).len() implies subtree_wf(
                d1,
                #[trigger] n.children.skip(i + 1)[j],
                hc,
            ) by {
                assert(n.children.skip(i + 1)[j] == n.children[i + 1 + j]);
            }
            lemma_inter_frame(
                d1,
                d2,
                n.keys.skip(i + 1),
                n.values.skip(i + 1),
                n.children.skip(i + 1),
                hc,
            );
        } else {
            assert(right_part(d2, n2, hc, i) =~= right_part(d1, n, hc, i));
        }
    }
}

/// Splitting child `i` into a left half, a promoted median entry, and a
/// right half keeps the node well-formed.
#[verifier::rlimit(100)]
#[verifier::spinoff_prover]
pub proof fn lemma_split_update_wf(
    d1: Seq<u8>,
    d2: Seq<u8>,
    n: NodeV,
    n2: NodeV,
    h: nat,
    i: int,
    loff: u64,
    roff: u64,
    mk: Seq<u8>,
    mv: Seq<u8>,
)
    requires
        node_wf_in(d1, n, h),
        !n.leaf,
        0 <= i < n.children.len(),
        n.keys.len() < crate::node::MAX_KEYS,
        agree_past_header(d2, d1),
        n2.keys == n.keys.insert(i, mk),
        n2.values == n.values.insert(i, mv),
        n2.children == n.children.update(i, loff).insert(i + 1, roff),
        n2.leaf == false,
        subtree_wf(d2, loff, (h - 1) as nat),
        subtree_wf(d2, roff, (h - 1) as nat),
        min_filled(d2, loff),
        min_filled(d2, roff),
        mk.len() + mv.len() <= crate::node::KV_LIMIT,
        subtree_kvs(d2, loff, (h - 1) as nat) + seq![(mk, mv)] + subtree_kvs(
            d2,
            roff,
            (h - 1) as nat,
        ) == subtree_kvs(d1, n.children[i], (h - 1) as nat),
    ensures
        node_wf_in(d2, n2, h),
{
    let hc = (h - 1) as nat;
    let lkvs = subtree_kvs(d2, loff, hc);
    let rkvs = subtree_kvs(d2, roff, hc);
    let mid = subtree_kvs(d1, n.children[i], hc);
    let k = n.keys.len() as int;
    crate::model::lemma_subtree_sorted(d1, n.children[i], hc);
    crate::model::lemma_concat3_bounds(lkvs, (mk, mv), rkvs);
    assert((lkvs + seq![(mk, mv)] + rkvs)[lkvs.len() as int] == (mk, mv));
    assert(mid[lkvs.len() as int] == (mk, mv));
    crate::model::lemma_bounds_split(lkvs + seq![(mk, mv)], rkvs, mk);
    // the median lies strictly between the node's neighbouring keys
    assert(i > 0 ==> lex_lt(n.keys[i - 1], mk)) by {
        if i > 0 {
            assert(all_above(mid, n.keys[i - 1]));
            assert(lex_lt(n.keys[i - 1], mid[lkvs.len() as int].0));
        }
    }
    assert(i < k ==> lex_lt(mk, n.keys[i])) by {
        if i < k {
            assert(all_below(mid, n.keys[i]));
            assert(lex_lt(mid[lkvs.len() as int].0, n.keys[i]));
        }
    }
    // pointwise shapes of the new key, value and child sequences
    assert(n2.keys.len() == k + 1);
    assert(n2.values.len() == k + 1);
    assert(n2.children.len() == k + 2);
    assert forall|j: int| 0 <= j < k + 1 implies #[trigger] n2.keys[j] == (if j < i {
        n.keys[j]
    } else if j == i {
        mk
    } else {
        n.keys[j - 1]
    }) && n2.values[j] == (if j < i {
        n.values[j]
    } else if j == i {
        mv
    } else {
        n.values[j - 1]
    }) by {}
    assert forall|j: int| 0 <= j < k + 2 implies #[trigger] n2.children[j] == (if j < i {
        n.children[j]
    } else if j == i {
        loff
    } else if j == i + 1 {
        roff
    } else {
        n.children[j - 1]
    }) by {}
    // the new keys ascend strictly
    assert forall|j1: int, j2: int| 0 <= j1 < j2 < k + 1 implies lex_lt(
        n2.keys[j1],
        n2.keys[j2],
    ) by {
        if j1 < i && j2 < i {
        } else if j1 < i && j2 == i {
            assert(lex_lt(n.keys[j1], mk)) by {
                if j1 < i - 1 {
                    lemma_lex_transitive(n.keys[j1], n.keys[i - 1], mk);
                }
            }
        } else if j1 < i && j2 > i {
        } else if j1 == i {
            assert(lex_lt(mk, n.keys[j2 - 1])) by {
                if j2 - 1 > i {
                    lemma_lex_transitive(mk, n.keys[i], n.keys[j2 - 1]);
                }
            }
        } else {
        }
    }
    // entries fit
    assert forall|j: int| 0 <= j < k + 1 implies crate::node::pair_fits(
        #[trigger] n2.keys[j],
        n2.values[j],
    ) by {
        if j < i {
            assert(crate::node::pair_fits(n.keys[j], n.values[j]));
        } else if j > i {
            assert(crate::node::pair_fits(n.keys[j - 1], n.values[j - 1]));
        }
    }
    // children well-formed, half full, separated
    assert forall|j: int| 0 <= j < k + 2 implies subtree_wf(d2, #[trigger] n2.children[j], hc)
        && min_filled(d2, n2.children[j]) by {
        if j != i && j != i + 1 {
            let jo = if j < i { j } else { j - 1 };
            assert(subtree_wf(d1, n.children[jo], hc));
            assert(min_filled(d1, n.children[jo]));
            lemma_subtree_frame(d1, d2, n.children[jo], hc);
            lemma_node_at_frame(d1, d2, n.children[jo]);
        }
    }
    assert forall|j: int| 0 <= j < k + 1 implies all_below(
        subtree_kvs(d2, n2.children[j], hc),
        #[trigger] n2.keys[j],
    ) by {
        if j < i {
            assert(all_below(subtree_kvs(d1, n.children[j], hc), n.keys[j]));
            lemma_subtree_frame(d1, d2, n.children[j], hc);
        } else if j == i {
            assert(all_below(lkvs, mk));
        } else if j == i + 1 {
            assert(all_above(rkvs, mk));
            if i < k {
                assert(all_below(mid, n.keys[i]));
                crate::model::lemma_bounds_split(lkvs + seq![(mk, mv)], rkvs, n.keys[i]);
            }
        } else {
            assert(all_below(subtree_kvs(d1, n.children[j - 1], hc), n.keys[j - 1]));
            lemma_subtree_frame(d1, d2, n.children[j - 1], hc);
        }
    }
    assert forall|j: int| 0 <= j < k + 1 implies all_above(
        subtree_kvs(d2, n2.children[j + 1], hc),
        #[trigger] n2.keys[j],
    ) by {
        if j + 1 < i {
            assert(all_above(subtree_kvs(d1, n.children[j + 1], hc), n.keys[j]));
            lemma_subtree_frame(d1, d2, n.children[j + 1], hc);
        } else if j + 1 == i {
            assert(all_above(mid, n.keys[i - 1]));
            crate::model::lemma_bounds_split(lkvs + seq![(mk, mv)], rkvs, n.keys[i - 1]);
            crate::model::lemma_bounds_split(lkvs, seq![(mk, mv)], n.keys[i - 1]);
        } else if j == i {
            assert(all_above(rkvs, mk));
        } else {
            assert(all_above(subtree_kvs(d1, n.children[j], hc), n.keys[j - 1]));
            lemma_subtree_frame(d1, d2, n.children[j], hc);
        }
    }
    assert(node_wf_in(d2, n2, h));
}

/// Splitting child `i` into a left half, a promoted median entry, and a
/// right half leaves the node's contents unchanged.
#[verifier::rlimit(100)]
#[verifier::spinoff_prover]
pub proof fn lemma_split_update_kvs(
    d1: Seq<u8>,
    d2: Seq<u8>,
    n: NodeV,
    n2: NodeV,
    h: nat,
    i: int,
    loff: u64,
    roff: u64,
    mk: Seq<u8>,
    mv: Seq<u8>,
)
    requires
        node_wf_in(d1, n, h),
        node_wf_in(d2, n2, h),
        !n.leaf,
        0 <= i < n.children.len(),
        n.keys.len() < crate::node::MAX_KEYS,
        agree_past_header(d2, d1),
        n2.keys == n.keys.insert(i, mk),
        n2.values == n.values.insert(i, mv),
        n2.children == n.children.update(i, loff).insert(i + 1, roff),
        n2.leaf == false,
        subtree_kvs(d2, loff, (h - 1) as nat) + seq![(mk, mv)] + subtree_kvs(
            d2,
            roff,
            (h - 1) as nat,
        ) == subtree_kvs(d1, n.children[i], (h - 1) as nat),
    ensures
        node_kvs_in(d2, n2, h) == node_kvs_in(d1, n, h),
{
    let hc = (h - 1) as nat;
    let lkvs = subtree_kvs(d2, loff, hc);
    let rkvs = subtree_kvs(d2, roff, hc);
    let mid = subtree_kvs(d1, n.children[i], hc);
    let k = n.keys.len() as int;
    assert(n2.keys.len() == k + 1);
    assert(n2.values.len() == k + 1);
    assert(n2.children.len() == k + 2);
    assert(n2.keys[i] == mk && n2.values[i] == mv);
    assert(n2.children[i] == loff);
    // contents: split the new node around child i, fold the pieces back
    lemma_node_split(d1, n, h, i);
    lemma_node_split(d2, n2, h, i);
    assert(left_part(d2, n2, hc, i) == left_part(d1, n, hc, i)) by {
        assert(n2.keys.take(i) =~= n.keys.take(i));
        assert(n2.values.take(i) =~= n.values.take(i));
        assert(n2.children.take(i) =~= n.children.take(i));
        assert forall|j: int| 0 <= j < n.children.take(i).len() implies subtree_wf(
            d1,
            #[trigger] n.children.take(i)[j],
            hc,
        ) by {
            assert(n.children.take(i)[j] == n.children[j]);
        }
        lemma_inter_frame(d1, d2, n.keys.take(i), n.values.take(i), n.children.take(i), hc);
    }
    // the part right of the new child i: the median entry, the right half,
    // then what stood right of the old child i
    let tail_keys = n2.keys.skip(i + 1);
    let tail_values = n2.values.skip(i + 1);
    let tail_children = n2.children.skip(i + 1);
    assert(tail_keys =~= n.keys.skip(i));
    assert(tail_values =~= n.values.skip(i));
    assert(tail_children =~= seq![roff] + n.children.skip(i + 1));
    let old_rp = right_part(d1, n, hc, i);
    assert(right_part(d2, n2, hc, i) == seq![(mk, mv)] + inter_kvs(
        d2,
        n.keys.skip(i),
        n.values.skip(i),
        seq![roff] + n.children.skip(i + 1),
        hc,
    ));
    assert(right_part(d2, n2, hc, i) == seq![(mk, mv)] + (rkvs + old_rp)) by {
        let tc = seq![roff] + n.children.skip(i + 1);
        assert(tc[0] == roff);
        assert(tc.drop_first() =~= n.children.skip(i + 1));
        if i < k {
            assert(n.keys.skip(i)[0] == n.keys[i]);
            assert(n.values.skip(i)[0] == n.values[i]);
            assert(n.keys.skip(i).drop_first() =~= n.keys.skip(i + 1));
            assert(n.values.skip(i).drop_first() =~= n.values.skip(i + 1));
            assert(inter_kvs(d2, n.keys.skip(i), n.values.skip(i), tc, hc) == subtree_kvs(
                d2,
                roff,
                hc,
            ) + seq![(n.keys[i], n.values[i])] + inter_kvs(
                d2,
                n.keys.skip(i + 1),
                n.values.skip(i + 1),
                n.children.skip(i + 1),
                hc,
            ));
            assert(inter_kvs(d2, n.keys.skip(i + 1), n.values.skip(i + 1),
                n.children.skip(i + 1), hc) == inter_kvs(
                d1,
                n.keys.skip(i + 1),
                n.values.skip(i + 1),
                n.children.skip(i + 1),
                hc,
            )) by {
                assert forall|j: int| 0 <= j < n.children.skip(i + 1).len() implies subtree_wf(
                    d1,
                    #[trigger] n.children.skip(i + 1)[j],
                    hc,
                ) by {
                    assert(n.children.skip(i + 1)[j] == n.children[i + 1 + j]);
                }
                lemma_inter_frame(
                    d1,
                    d2,
                    n.keys.skip(i + 1),
                    n.values.skip(i + 1),
                    n.children.skip(i + 1),
                    hc,
                );
            }
            assert(rkvs + (seq![(n.keys[i], n.values[i])] + inter_kvs(
                d1,
                n.keys.skip(i + 1),
                n.values.skip(i + 1),
                n.children.skip(i + 1),
                hc,
            )) =~= rkvs + seq![(n.keys[i], n.values[i])] + inter_kvs(
                d1,
                n.keys.skip(i + 1),
                n.values.skip(i + 1),
                n.children.skip(i + 1),
                hc,
            ));
        } else {
            assert(n.keys.skip(i).len() == 0);
            assert(inter_kvs(d2, n.keys.skip(i), n.values.skip(i), tc, hc) == rkvs);
            assert(old_rp =~= Seq::<(Seq<u8>, Seq<u8>)>::empty());
            assert(rkvs + old_rp =~= rkvs);
        }
    }
    assert(subtree_kvs(d2, n2.children[i], hc) == lkvs);
    assert(node_kvs_in(d2, n2, h) == left_part(d1, n, hc, i) + lkvs + (seq![(mk, mv)] + (rkvs
        + old_rp)));
    assert(left_part(d1, n, hc, i) + lkvs + (seq![(mk, mv)] + (rkvs + old_rp)) =~= left_part(
        d1,
        n,
        hc,
        i,
    ) + (lkvs + seq![(mk, mv)] + rkvs) + old_rp);
    assert(node_kvs_in(d1, n, h) == left_part(d1, n, hc, i) + mid + old_rp);
    assert(left_part(d1, n, hc, i) + (lkvs + seq![(mk, mv)] + rkvs) + old_rp =~= node_kvs_in(
        d1,
        n,
        h,
    ));
}

/// The left half a full node splits into: the entries and children below
/// the median.
pub open spec fn split_left(c: NodeV) -> NodeV {
    NodeV {
        keys: c.keys.take(crate::node::MIN_KEYS as int),
        values: c.values.take(crate::node::MIN_KEYS as int),
        children: if c.leaf {
            Seq::empty()
        } else {
            c.children.take(crate::node::MIN_DEGREE as int)
        },
        leaf: c.leaf,
    }
}

/// The right half a full node splits into: the entries and children above
/// the median.
pub open spec fn split_right(c: NodeV) -> NodeV {
    NodeV {
        keys: c.keys.skip(crate::node::MIN_DEGREE as int),
        values: c.values.skip(crate::node::MIN_DEGREE as int),
        children: if c.leaf {
            Seq::empty()
        } else {
            c.children.skip(crate::node::MIN_DEGREE as int)
        },
        leaf: c.leaf,
    }
}

/// A full node's contents is the left half's, the median entry, then the
/// right half's; both halves are well-formed and exactly half full.
#[verifier::rlimit(100)]
#[verifier::spinoff_prover]
pub proof fn lemma_split_halves(disk: Seq<u8>, c: NodeV, hc: nat)
    requires
        node_wf_in(disk, c, hc),
        c.keys.len() == crate::node::MAX_KEYS,
    ensures
        node_wf_in(disk, split_left(c), hc),
        node_wf_in(disk, split_right(c), hc),
        split_left(c).keys.len() == crate::node::MIN_KEYS,
        split_right(c).keys.len() == crate::node::MIN_KEYS,
        node_kvs_in(disk, c, hc) == node_kvs_in(disk, split_left(c), hc) + seq![
            (c.keys[crate::node::MIN_KEYS as int], c.values[crate::node::MIN_KEYS as int])]
            + node_kvs_in(disk, split_right(c), hc),
{
    let t = crate::node::MIN_DEGREE as int;
    let m = crate::node::MIN_KEYS as int;
    let l = split_left(c);
    let r = split_right(c);
    assert(l.keys.len() == m && l.values.len() == m);
    assert(r.keys.len() == m && r.values.len() == m);
    assert forall|a: int, b: int| 0 <= a < b < l.keys.len() implies lex_lt(
        l.keys[a],
        l.keys[b],
    ) by {
        assert(lex_lt(c.keys[a], c.keys[b]));
    }
    assert forall|a: int, b: int| 0 <= a < b < r.keys.len() implies lex_lt(
        r.keys[a],
        r.keys[b],
    ) by {
        assert(lex_lt(c.keys[t + a], c.keys[t + b]));
    }
    assert forall|a: int| 0 <= a < l.keys.len() implies crate::node::pair_fits(
        #[trigger] l.keys[a],
        l.values[a],
    ) by {
        assert(crate::node::pair_fits(c.keys[a], c.values[a]));
    }
    assert forall|a: int| 0 <= a < r.keys.len() implies crate::node::pair_fits(
        #[trigger] r.keys[a],
        r.values[a],
    ) by {
        assert(crate::node::pair_fits(c.keys[t + a], c.values[t + a]));
    }
    if c.leaf {
        assert(node_wf_in(disk, l, hc));
        assert(node_wf_in(disk, r, hc));
        let z = crate::model::zip_kvs(c.keys, c.values);
        assert(node_kvs_in(disk, l, hc) =~= z.take(m));
        assert(node_kvs_in(disk, r, hc) =~= z.skip(t));
        assert(z =~= z.take(m) + seq![(c.keys[m], c.values[m])] + z.skip(t));
    } else {
        assert(l.children.len() == t && r.children.len() == t);
        assert forall|a: int| 0 <= a < l.children.len() implies subtree_wf(
            disk,
            #[trigger] l.children[a],
            (hc - 1) as nat,
        ) && min_filled(disk, l.children[a]) by {
            assert(l.children[a] == c.children[a]);
            assert(subtree_wf(disk, c.children[a], (hc - 1) as nat));
            assert(min_filled(disk, c.children[a]));
        }
        assert forall|a: int| 0 <= a < r.children.len() implies subtree_wf(
            disk,
            #[trigger] r.children[a],
            (hc - 1) as nat,
        ) && min_filled(disk, r.children[a]) by {
            assert(r.children[a] == c.children[t + a]);
            assert(subtree_wf(disk, c.children[t + a], (hc - 1) as nat));
            assert(min_filled(disk, c.children[t + a]));
        }
        assert forall|a: int| 0 <= a < l.keys.len() implies all_below(
            subtree_kvs(disk, l.children[a], (hc - 1) as nat),
            #[trigger] l.keys[a],
        ) && all_above(subtree_kvs(disk, l.children[a + 1], (hc - 1) as nat), l.keys[a]) by {
            assert(all_below(subtree_kvs(disk, c.children[a], (hc - 1) as nat), c.keys[a]));
            assert(all_above(subtree_kvs(disk, c.children[a + 1], (hc - 1) as nat), c.keys[a]));
        }
        assert forall|a: int| 0 <= a < r.keys.len() implies all_below(
            subtree_kvs(disk, r.children[a], (hc - 1) as nat),
            #[trigger] r.keys[a],
        ) && all_above(subtree_kvs(disk, r.children[a + 1], (hc - 1) as nat), r.keys[a]) by {
            assert(all_below(subtree_kvs(disk, c.children[t + a], (hc - 1) as nat), c.keys[t + a]));
            assert(all_above(
                subtree_kvs(disk, c.children[t + a + 1], (hc - 1) as nat),
                c.keys[t + a],
            ));
        }
        assert(node_wf_in(disk, l, hc));
        assert(node_wf_in(disk, r, hc));
        let hg = (hc - 1) as nat;
        lemma_inter_split(disk, c.keys, c.values, c.children, hg, t);
        lemma_inter_last_key(disk, c.keys.take(t), c.values.take(t), c.children.take(t), hg);
        assert(c.keys.take(t).take(m) =~= c.keys.take(m));
        assert(c.values.take(t).take(m) =~= c.values.take(m));
        assert(c.keys.take(t).last() == c.keys[m]);
        assert(c.values.take(t).last() == c.values[m]);
        assert(node_kvs_in(disk, l, hc) == inter_kvs(
            disk,
            c.keys.take(m),
            c.values.take(m),
            c.children.take(t),
            hg,
        ));
        assert(node_kvs_in(disk, r, hc) == inter_kvs(
            disk,
            c.keys.skip(t),
            c.values.skip(t),
            c.children.skip(t),
            hg,
        ));
        assert(node_kvs_in(disk, c, hc) == (node_kvs_in(disk, l, hc) + seq![
            (c.keys[m], c.values[m])]) + node_kvs_in(disk, r, hc));
        assert((node_kvs_in(disk, l, hc) + seq![(c.keys[m], c.values[m])]) + node_kvs_in(
            disk,
            r,
            hc,
        ) =~= node_kvs_in(disk, l, hc) + seq![(c.keys[m], c.values[m])] + node_kvs_in(
            disk,
            r,
            hc,
        ));
    }
}

/// Inserting a fresh key into a leaf at its rank: the leaf stays
/// well-formed and its contents gain the entry at its sorted place.
pub proof fn lemma_leaf_insert(disk: Seq<u8>, n: NodeV, n2: NodeV, k: Seq<u8>, v: Seq<u8>, i: int)
    requires
        node_wf_in(disk, n, 0),
        n.leaf,
        is_rank(n, k, i),
        i == n.keys.len() || n.keys[i] != k,
        n.keys.len() < crate::node::MAX_KEYS,
        k.len() + v.len() <= crate::node::KV_LIMIT,
        n2.keys == n.keys.insert(i, k),
        n2.values == n.values.insert(i, v),
        n2.children == n.children,
        n2.leaf,
    ensures
        node_wf_in(disk, n2, 0),
        node_kvs_in(disk, n2, 0) == kvs_insert(node_kvs_in(disk, n, 0), k, v),
{
    let z = crate::model::zip_kvs(n.keys, n.values);
    let a = z.take(i);
    let b = z.skip(i);
    assert(z =~= a + b);
    assert(all_below(a, k)) by {
        assert forall|j: int| 0 <= j < a.len() implies lex_lt(#[trigger] a[j].0, k) by {
            assert(a[j] == z[j]);
            assert(z[j].0 == n.keys[j]);
        }
    }
    lemma_insert_concat_left(a, b, k, v);
    if b.len() == 0 {
        assert(kvs_insert(b, k, v) == seq![(k, v)]);
    } else {
        assert(b[0] == z[i]);
        assert(b[0].0 == n.keys[i]);
        lemma_lex_trichotomy(n.keys[i], k);
        assert(lex_lt(k, b[0].0));
        assert(kvs_insert(b, k, v) == seq![(k, v)] + b);
    }
    assert(crate::model::zip_kvs(n2.keys, n2.values) =~= a + (seq![(k, v)] + b)) by {
        assert(n2.keys.len() == n.keys.len() + 1);
        assert forall|j: int| 0 <= j < n2.keys.len() implies crate::model::zip_kvs(
            n2.keys,
            n2.values,
        )[j] == (a + (seq![(k, v)] + b))[j] by {
            if j < i {
                assert(n2.keys[j] == n.keys[j] && n2.values[j] == n.values[j]);
            } else if j == i {
                assert(n2.keys[j] == k && n2.values[j] == v);
            } else {
                assert(n2.keys[j] == n.keys[j - 1] && n2.values[j] == n.values[j - 1]);
            }
        }
    }
    assert(kvs_insert(z, k, v) == a + (seq![(k, v)] + b));
    assert(node_kvs_in(disk, n2, 0) == kvs_insert(node_kvs_in(disk, n, 0), k, v));
    assert forall|j1: int, j2: int| 0 <= j1 < j2 < n2.keys.len() implies lex_lt(
        n2.keys[j1],
        n2.keys[j2],
    ) by {
        if j2 == i {
            assert(lex_lt(n.keys[j1], k));
        } else if j1 == i {
            assert(0 <= j2 - 1 < n.keys.len());
            assert(!lex_lt(n.keys[i], k));
            assert(n.keys[i] != k);
            lemma_lex_trichotomy(n.keys[i], k);
            assert(lex_lt(k, n.keys[i]));
            if j2 - 1 > i {
                assert(lex_lt(n.keys[i], n.keys[j2 - 1]));
                lemma_lex_transitive(k, n.keys[i], n.keys[j2 - 1]);
            }
            assert(lex_lt(k, n.keys[j2 - 1]));
        } else if j1 < i && j2 > i {
            assert(lex_lt(n.keys[j1], n.keys[j2 - 1]));
        } else if j1 < i {
            assert(lex_lt(n.keys[j1], n.keys[j2]));
        } else {
            assert(lex_lt(n.keys[j1 - 1], n.keys[j2 - 1]));
        }
    }
    assert forall|j: int| 0 <= j < n2.keys.len() implies crate::node::pair_fits(
        #[trigger] n2.keys[j],
        n2.values[j],
    ) by {
        if j < i {
            assert(crate::node::pair_fits(n.keys[j], n.values[j]));
        } else if j > i {
            assert(crate::node::pair_fits(n.keys[j - 1], n.values[j - 1]));
        }
    }
    assert(node_wf_in(disk, n2, 0));
}

/// Overwriting the value at an existing key of a node: the node stays
/// well-formed and its contents change at that entry alone.
pub proof fn lemma_node_overwrite(
    disk: Seq<u8>,
    n: NodeV,
    n2: NodeV,
    h: nat,
    k: Seq<u8>,
    v: Seq<u8>,
    i: int,
)
    requires
        node_wf_in(disk, n, h),
        is_rank(n, k, i),
        0 <= i < n.keys.len(),
        n.keys[i] == k,
        k.len() + v.len() <= crate::node::KV_LIMIT,
        n2.keys == n.keys,
        n2.values == n.values.update(i, v),
        n2.children == n.children,
        n2.leaf == n.leaf,
    ensures
        node_wf_in(disk, n2, h),
        node_kvs_in(disk, n2, h) == kvs_insert(node_kvs_in(disk, n, h), k, v),
{
    assert forall|j: int| 0 <= j < n2.keys.len() implies crate::node::pair_fits(
        #[trigger] n2.keys[j],
        n2.values[j],
    ) by {
        if j != i {
            assert(crate::node::pair_fits(n.keys[j], n.values[j]));
        }
    }
    assert(node_wf_in(disk, n2, h));
    if n.leaf || h == 0 {
        let z = crate::model::zip_kvs(n.keys, n.values);
        let a = z.take(i);
        let b = z.skip(i + 1);
        assert(z =~= a + (seq![(k, n.values[i])] + b));
        assert(all_below(a, k)) by {
            assert forall|j: int| 0 <= j < a.len() implies lex_lt(#[trigger] a[j].0, k) by {
                assert(a[j] == z[j]);
                assert(z[j].0 == n.keys[j]);
            }
        }
        lemma_insert_concat_left(a, seq![(k, n.values[i])] + b, k, v);
        assert((seq![(k, n.values[i])] + b)[0] == (k, n.values[i]));
        lemma_lex_trichotomy(k, k);
        assert(kvs_insert(seq![(k, n.values[i])] + b, k, v) == seq![(k, v)] + (seq![
            (k, n.values[i])] + b).drop_first());
        assert((seq![(k, n.values[i])] + b).drop_first() =~= b);
        assert(crate::model::zip_kvs(n2.keys, n2.values) =~= a + (seq![(k, v)] + b)) by {
            assert forall|j: int| 0 <= j < n2.keys.len() implies crate::model::zip_kvs(
                n2.keys,
                n2.values,
            )[j] == (a + (seq![(k, v)] + b))[j] by {
                if j < i {
                    assert(a[j] == z[j]);
                } else if j > i {
                    assert(b[j - i - 1] == z[j]);
                }
            }
        }
        assert(kvs_insert(z, k, v) == a + (seq![(k, v)] + b));
    } else {
        lemma_route_insert(disk, n, h, k, v, i);
        let hc = (h - 1) as nat;
        lemma_node_split(disk, n2, h, i);
        assert(left_part(disk, n2, hc, i) == left_part(disk, n, hc, i)) by {
            assert(n2.keys.take(i) =~= n.keys.take(i));
            assert(n2.values.take(i) =~= n.values.take(i));
        }
        assert(right_part(disk, n2, hc, i) == seq![(k, v)] + inter_kvs(
            disk,
            n.keys.skip(i + 1),
            n.values.skip(i + 1),
            n.children.skip(i + 1),
            hc,
        )) by {
            assert(n2.keys[i] == k && n2.values[i] == v);
            assert(n2.keys.skip(i + 1) =~= n.keys.skip(i + 1));
            assert(n2.values.skip(i + 1) =~= n.values.skip(i + 1));
        }
        assert(left_part(disk, n, hc, i) + subtree_kvs(disk, n.children[i], hc) + (seq![(k, v)]
            + inter_kvs(disk, n.keys.skip(i + 1), n.values.skip(i + 1), n.children.skip(i + 1),
            hc)) =~= left_part(disk, n, hc, i) + subtree_kvs(disk, n.children[i], hc) + seq![
            (k, v)] + inter_kvs(
            disk,
            n.keys.skip(i + 1),
            n.values.skip(i + 1),
            n.children.skip(i + 1),
            hc,
        ));
    }
}

/// Both halves of a split, saved at fresh offsets on a twice-grown image,
/// are well-formed, half full, and together hold the old child's contents.
#[verifier::rlimit(100)]
#[verifier::spinoff_prover]
pub proof fn lemma_split_saved(
    d0: Seq<u8>,
    d1: Seq<u8>,
    d2: Seq<u8>,
    c: NodeV,
    coff: u64,
    loff: u64,
    roff: u64,
    hc: nat,
)
    requires
        node_wf_in(d0, c, hc),
        c.keys.len() == crate::node::MAX_KEYS,
        spec_node_at(d0, coff) == Some(c),
        crate::model::extends(d1, d0),
        crate::model::extends(d2, d1),
        d0.len() >= crate::pager::HEADER_SIZE,
        spec_node_at(d1, loff) == Some(split_left(c)),
        spec_node_at(d2, loff) == Some(split_left(c)),
        spec_node_at(d2, roff) == Some(split_right(c)),
    ensures
        subtree_wf(d2, loff, hc),
        subtree_wf(d2, roff, hc),
        min_filled(d2, loff),
        min_filled(d2, roff),
        crate::node::pair_fits(
            c.keys[crate::node::MIN_KEYS as int],
            c.values[crate::node::MIN_KEYS as int],
        ),
        subtree_kvs(d2, loff, hc) + seq![
            (c.keys[crate::node::MIN_KEYS as int], c.values[crate::node::MIN_KEYS as int])]
            + subtree_kvs(d2, roff, hc) == subtree_kvs(d0, coff, hc),
{
    lemma_split_halves(d0, c, hc);
    crate::model::lemma_extends_agree(d1, d0);
    crate::model::lemma_extends_agree(d2, d1);
    crate::model::lemma_extends_trans(d2, d1, d0);
    crate::model::lemma_extends_agree(d2, d0);
    crate::model::lemma_node_in_frame(d0, d1, split_left(c), hc);
    crate::model::lemma_node_in_frame(d1, d2, split_left(c), hc);
    crate::model::lemma_node_in_frame(d0, d1, split_right(c), hc);
    crate::model::lemma_node_in_frame(d1, d2, split_right(c), hc);
    assert(subtree_kvs(d2, loff, hc) == node_kvs_in(d0, split_left(c), hc));
    assert(subtree_kvs(d2, roff, hc) == node_kvs_in(d0, split_right(c), hc));
    assert(subtree_kvs(d0, coff, hc) == node_kvs_in(d0, c, hc));
}

/// Descending into child `i` and rewriting it with one entry inserted:
/// the node, its child pointer updated, stays well-formed and its contents
/// gain exactly that entry.
#[verifier::rlimit(100)]
#[verifier::spinoff_prover]
pub proof fn lemma_descend_insert(
    d1: Seq<u8>,
    d2: Seq<u8>,
    n1: NodeV,
    n2: NodeV,
    h: nat,
    i: int,
    newoff: u64,
    k: Seq<u8>,
    v: Seq<u8>,
)
    requires
        node_wf_in(d1, n1, h),
        !n1.leaf,
        is_rank(n1, k, i),
        i == n1.keys.len() || n1.keys[i] != k,
        0 <= i < n1.children.len(),
        agree_past_header(d2, d1),
        subtree_wf(d2, newoff, (h - 1) as nat),
        spec_node_at(d2, newoff).unwrap().keys.len() >= crate::node::MIN_KEYS,
        subtree_kvs(d2, newoff, (h - 1) as nat) == kvs_insert(
            subtree_kvs(d1, n1.children[i], (h - 1) as nat),
            k,
            v,
        ),
        n2.keys == n1.keys,
        n2.values == n1.values,
        n2.leaf == n1.leaf,
        n2.children == n1.children.update(i, newoff),
    ensures
        node_wf_in(d2, n2, h),
        node_kvs_in(d2, n2, h) == kvs_insert(node_kvs_in(d1, n1, h), k, v),
{
    let hc = (h - 1) as nat;
    let mid = subtree_kvs(d1, n1.children[i], hc);
    let kk = kvs_insert(mid, k, v);
    assert(i > 0 ==> all_above(kk, n1.keys[i - 1])) by {
        if i > 0 {
            assert(all_above(mid, n1.keys[i - 1]));
            assert(lex_lt(n1.keys[i - 1], k));
            crate::kvs::lemma_insert_above(mid, k, v, n1.keys[i - 1]);
        }
    }
    assert(i < n1.keys.len() ==> all_below(kk, n1.keys[i])) by {
        if i < n1.keys.len() {
            assert(all_below(mid, n1.keys[i]));
            assert(lex_lt(k, n1.keys[i])) by {
                lemma_lex_trichotomy(n1.keys[i], k);
            }
            crate::kvs::lemma_insert_below(mid, k, v, n1.keys[i]);
        }
    }
    assert(min_filled(d2, newoff));
    lemma_child_update_wf(d1, d2, n1, n2, h, i, newoff);
    lemma_child_update_kvs(d1, d2, n1, n2, h, i, newoff);
    lemma_route_insert(d1, n1, h, k, v, i);
}

} // verus!
