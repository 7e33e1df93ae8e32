//! Rebalancing a node during deletion.
//!
//! Deletion refills a child before descending into it: it borrows an entry
//! from a sibling through the parent (a rotation) or merges two children
//! around their separator. These lemmas say that each such step keeps the
//! node well-formed and leaves its contents untouched, and that removing
//! an entry from child `i`, or replacing a separator by its neighbour's
//! borderline entry, removes exactly one key from the node's contents.

use vstd::prelude::*;

use crate::bytes::{lex_lt, lemma_lex_transitive, lemma_lex_trichotomy};
use crate::codec::spec_node_at;
use crate::kvs::{
    kvs_remove, lemma_remove_concat_left, lemma_remove_sorted,
};
use crate::model::{
    agree_past_header, all_above, all_below, inter_kvs, lemma_all_above_weaken,
    lemma_all_below_weaken, lemma_above_ne, lemma_below_ne, lemma_bounds_split,
    lemma_concat3_bounds, lemma_inter_frame, lemma_inter_last_key, lemma_inter_split,
    lemma_node_kvs_sorted, lemma_subtree_frame, lemma_subtree_sorted, min_filled, node_kvs_in,
    node_wf_in, subtree_kvs, subtree_wf, zip_kvs, lemma_node_at_frame,
};
use crate::node::{NodeV, pair_fits, MAX_KEYS, MIN_KEYS};
use crate::route::{
    is_rank, left_part, right_part, lemma_node_split, lemma_rank_bounds, lemma_child_update_wf,
    lemma_child_update_kvs,
};

verus! {

/// A node's contents holds at least one entry per key.
pub proof fn lemma_inter_len(
    disk: Seq<u8>,
    keys: Seq<Seq<u8>>,
    values: Seq<Seq<u8>>,
    children: Seq<u64>,
    hc: nat,
)
    requires
        values.len() == keys.len(),
        children.len() == keys.len() + 1,
    ensures
        inter_kvs(disk, keys, values, children, hc).len() >= keys.len(),
    decreases children.len(),
{
    if keys.len() == 0 {
    } else {
        lemma_inter_len(disk, keys.drop_first(), values.drop_first(), children.drop_first(), hc);
    }
}

/// A node's contents is at least as long as its key sequence.
pub proof fn lemma_node_kvs_len(disk: Seq<u8>, n: NodeV, h: nat)
    requires
        crate::node::node_shape(n),
    ensures
        node_kvs_in(disk, n, h).len() >= n.keys.len(),
{
    if n.leaf || h == 0 {
    } else {
        lemma_inter_len(disk, n.keys, n.values, n.children, (h - 1) as nat);
    }
}

/// Each entry of the node itself stands in the node's contents.
pub proof fn lemma_key_in_kvs(disk: Seq<u8>, n: NodeV, h: nat, j: int)
    requires
        node_wf_in(disk, n, h),
        0 <= j < n.keys.len(),
    ensures
        exists|i: int|
            0 <= i < node_kvs_in(disk, n, h).len() && #[trigger] node_kvs_in(disk, n, h)[i] == (
            n.keys[j],
            n.values[j],
            ),
{
    if n.leaf || h == 0 {
        let z = zip_kvs(n.keys, n.values);
        assert(z[j] == (n.keys[j], n.values[j]));
        assert(node_kvs_in(disk, n, h)[j] == (n.keys[j], n.values[j]));
    } else {
        lemma_node_split(disk, n, h, j);
        let hc = (h - 1) as nat;
        let lp = left_part(disk, n, hc, j);
        let mid = subtree_kvs(disk, n.children[j], hc);
        let i = lp.len() + mid.len();
        assert(right_part(disk, n, hc, j)[0] == (n.keys[j], n.values[j]));
        assert(node_kvs_in(disk, n, h)[i as int] == (n.keys[j], n.values[j]));
    }
}

/// The last entry of an internal node's contents is the last entry of its
/// last child's contents.
pub proof fn lemma_last_of_kvs(disk: Seq<u8>, n: NodeV, h: nat)
    requires
        node_wf_in(disk, n, h),
        !n.leaf,
        n.keys.len() >= 1,
    ensures
        subtree_kvs(disk, n.children[n.keys.len() as int], (h - 1) as nat).len() >= 1,
        node_kvs_in(disk, n, h).len() >= 1,
        node_kvs_in(disk, n, h).last() == subtree_kvs(
            disk,
            n.children[n.keys.len() as int],
            (h - 1) as nat,
        ).last(),
{
    let hc = (h - 1) as nat;
    let j = n.keys.len() as int;
    lemma_node_split(disk, n, h, j);
    let last = spec_node_at(disk, n.children[j]).unwrap();
    assert(subtree_wf(disk, n.children[j], hc));
    assert(node_wf_in(disk, last, hc));
    assert(subtree_kvs(disk, n.children[j], hc) == node_kvs_in(disk, last, hc));
    assert(last.keys.len() >= MIN_KEYS);
    lemma_node_kvs_len(disk, last, hc);
    let lp = left_part(disk, n, hc, j);
    let mid = subtree_kvs(disk, n.children[j], hc);
    assert(right_part(disk, n, hc, j) =~= Seq::<(Seq<u8>, Seq<u8>)>::empty());
    assert(node_kvs_in(disk, n, h) =~= lp + mid);
    assert((lp + mid).last() == mid.last());
}

/// The first entry of an internal node's contents is the first entry of
/// its first child's contents.
pub proof fn lemma_first_of_kvs(disk: Seq<u8>, n: NodeV, h: nat)
    requires
        node_wf_in(disk, n, h),
        !n.leaf,
        n.keys.len() >= 1,
    ensures
        subtree_kvs(disk, n.children[0], (h - 1) as nat).len() >= 1,
        node_kvs_in(disk, n, h).len() >= 1,
        node_kvs_in(disk, n, h).first() == subtree_kvs(disk, n.children[0], (h - 1) as nat).first(),
{
    let hc = (h - 1) as nat;
    lemma_node_split(disk, n, h, 0);
    let first = spec_node_at(disk, n.children[0]).unwrap();
    assert(subtree_wf(disk, n.children[0], hc));
    assert(node_wf_in(disk, first, hc));
    assert(subtree_kvs(disk, n.children[0], hc) == node_kvs_in(disk, first, hc));
    assert(first.keys.len() >= MIN_KEYS);
    lemma_node_kvs_len(disk, first, hc);
    let lp = left_part(disk, n, hc, 0);
    let mid = subtree_kvs(disk, n.children[0], hc);
    let rp = right_part(disk, n, hc, 0);
    assert(lp =~= Seq::<(Seq<u8>, Seq<u8>)>::empty());
    assert(node_kvs_in(disk, n, h) =~= mid + rp);
    assert((mid + rp).first() == mid.first());
}

/// Removing `k` from an internal node's contents removes from child `i`,
/// provided the separator at `i` is not `k` itself.
pub proof fn lemma_route_remove(disk: Seq<u8>, n: NodeV, h: nat, k: Seq<u8>, i: int)
    requires
        node_wf_in(disk, n, h),
        !n.leaf,
        is_rank(n, k, i),
        i == n.keys.len() || n.keys[i] != k,
    ensures
        kvs_remove(node_kvs_in(disk, n, h), k) == left_part(disk, n, (h - 1) as nat, i)
            + kvs_remove(subtree_kvs(disk, n.children[i], (h - 1) as nat), k) + right_part(
            disk,
            n,
            (h - 1) as nat,
            i,
        ),
{
    let hc = (h - 1) as nat;
    lemma_node_split(disk, n, h, i);
    lemma_rank_bounds(disk, n, h, k, i);
    let lp = left_part(disk, n, hc, i);
    let mid = subtree_kvs(disk, n.children[i], hc);
    let rp = right_part(disk, n, hc, i);
    lemma_below_ne(lp, k);
    lemma_above_ne(rp, k);
    assert(lp + mid + rp =~= lp + (mid + rp));
    lemma_remove_concat_left(lp, mid + rp, k);
    assert(kvs_remove(mid + rp, k) == kvs_remove(mid, k) + rp) by {
        lemma_remove_concat_right_local(mid, rp, k);
    }
    assert(lp + (kvs_remove(mid, k) + rp) =~= lp + kvs_remove(mid, k) + rp);
}

/// Removing a key below every key of `b` happens to the left of `b`.
proof fn lemma_remove_concat_right_local(
    a: Seq<(Seq<u8>, Seq<u8>)>,
    b: Seq<(Seq<u8>, Seq<u8>)>,
    k: Seq<u8>,
)
    requires
        forall|i: int| 0 <= i < b.len() ==> #[trigger] b[i].0 != k,
    ensures
        kvs_remove(a + b, k) == kvs_remove(a, k) + b,
    decreases a.len(),
{
    if a.len() == 0 {
        assert(a + b =~= b);
        crate::kvs::lemma_lookup_all_other(b, k);
        crate::kvs::lemma_remove_absent(b, k);
        assert(kvs_remove(a, k) + b =~= b);
    } else {
        assert((a + b)[0] == a[0]);
        assert((a + b).drop_first() =~= a.drop_first() + b);
        if a[0].0 == k {
            assert(kvs_remove(a + b, k) == a.drop_first() + b);
            assert(kvs_remove(a, k) + b =~= a.drop_first() + b);
        } else {
            lemma_remove_concat_right_local(a.drop_first(), b, k);
            assert(kvs_remove(a + b, k) == seq![a[0]] + (kvs_remove(a.drop_first(), k) + b));
            assert(seq![a[0]] + (kvs_remove(a.drop_first(), k) + b) =~= (seq![a[0]] + kvs_remove(
                a.drop_first(),
                k,
            )) + b);
        }
    }
}

/// Descending into child `i` and rewriting it with `k` removed: the node,
/// its child pointer updated, stays well-formed and its contents lose
/// exactly that key.
#[verifier::rlimit(100)]
#[verifier::spinoff_prover]
pub proof fn lemma_descend_remove(
    d1: Seq<u8>,
    d2: Seq<u8>,
    n1: NodeV,
    n2: NodeV,
    h: nat,
    i: int,
    newoff: u64,
    k: Seq<u8>,
)
    requires
        node_wf_in(d1, n1, h),
        !n1.leaf,
        is_rank(n1, k, i),
        i == n1.keys.len() || n1.keys[i] != k,
        0 <= i < n1.children.len(),
        agree_past_header(d2, d1),
        subtree_wf(d2, newoff, (h - 1) as nat),
        spec_node_at(d2, newoff).unwrap().keys.len() >= crate::node::MIN_KEYS,
        subtree_kvs(d2, newoff, (h - 1) as nat) == kvs_remove(
            subtree_kvs(d1, n1.children[i], (h - 1) as nat),
            k,
        ),
        n2.keys == n1.keys,
        n2.values == n1.values,
        n2.leaf == n1.leaf,
        n2.children == n1.children.update(i, newoff),
    ensures
        node_wf_in(d2, n2, h),
        node_kvs_in(d2, n2, h) == kvs_remove(node_kvs_in(d1, n1, h), k),
{
    let hc = (h - 1) as nat;
    let mid = subtree_kvs(d1, n1.children[i], hc);
    let kk = kvs_remove(mid, k);
    lemma_subtree_sorted(d1, n1.children[i], hc);
    lemma_remove_sorted(mid, k);
    assert(i > 0 ==> all_above(kk, n1.keys[i - 1])) by {
        if i > 0 {
            assert(all_above(mid, n1.keys[i - 1]));
        }
    }
    assert(i < n1.keys.len() ==> all_below(kk, n1.keys[i])) by {
        if i < n1.keys.len() {
            assert(all_below(mid, n1.keys[i]));
        }
    }
    assert(min_filled(d2, newoff));
    lemma_child_update_wf(d1, d2, n1, n2, h, i, newoff);
    lemma_child_update_kvs(d1, d2, n1, n2, h, i, newoff);
    lemma_route_remove(d1, n1, h, k, i);
}

/// The node with its last entry (and, when internal, last child) removed.
pub open spec fn popped_last(n: NodeV) -> NodeV {
    NodeV {
        keys: n.keys.drop_last(),
        values: n.values.drop_last(),
        children: if n.leaf {
            Seq::empty()
        } else {
            n.children.drop_last()
        },
        leaf: n.leaf,
    }
}

/// The node with its first entry (and, when internal, first child) removed.
pub open spec fn popped_first(n: NodeV) -> NodeV {
    NodeV {
        keys: n.keys.drop_first(),
        values: n.values.drop_first(),
        children: if n.leaf {
            Seq::empty()
        } else {
            n.children.drop_first()
        },
        leaf: n.leaf,
    }
}

/// The node with one entry (and, when internal, one child) put in front.
pub open spec fn pushed_front(n: NodeV, k: Seq<u8>, v: Seq<u8>, c: u64) -> NodeV {
    NodeV {
        keys: seq![k] + n.keys,
        values: seq![v] + n.values,
        children: if n.leaf {
            Seq::empty()
        } else {
            seq![c] + n.children
        },
        leaf: n.leaf,
    }
}

/// The node with one entry (and, when internal, one child) put at the back.
pub open spec fn pushed_back(n: NodeV, k: Seq<u8>, v: Seq<u8>, c: u64) -> NodeV {
    NodeV {
        keys: n.keys.push(k),
        values: n.values.push(v),
        children: if n.leaf {
            Seq::empty()
        } else {
            n.children.push(c)
        },
        leaf: n.leaf,
    }
}

/// Two nodes and the entry between them, joined into one node.
pub open spec fn merged_node(l: NodeV, r: NodeV, mk: Seq<u8>, mv: Seq<u8>) -> NodeV {
    NodeV {
        keys: l.keys + seq![mk] + r.keys,
        values: l.values + seq![mv] + r.values,
        children: if l.leaf {
            Seq::empty()
        } else {
            l.children + r.children
        },
        leaf: l.leaf,
    }
}

/// Dropping a node's last entry keeps it well-formed; its contents lose
/// the last entry and, when internal, the last child's stretch.
#[verifier::rlimit(100)]
#[verifier::spinoff_prover]
pub proof fn lemma_pop_last(disk: Seq<u8>, n: NodeV, h: nat)
    requires
        node_wf_in(disk, n, h),
        n.keys.len() >= 1,
    ensures
        node_wf_in(disk, popped_last(n), h),
        n.leaf ==> node_kvs_in(disk, n, h) == node_kvs_in(disk, popped_last(n), h) + seq![
            (n.keys.last(), n.values.last())],
        !n.leaf ==> node_kvs_in(disk, n, h) == node_kvs_in(disk, popped_last(n), h) + seq![
            (n.keys.last(), n.values.last())] + subtree_kvs(
            disk,
            n.children.last(),
            (h - 1) as nat,
        ),
{
    let p = popped_last(n);
    let m = n.keys.len() - 1;
    assert forall|a: int, b: int| 0 <= a < b < p.keys.len() implies lex_lt(
        p.keys[a],
        p.keys[b],
    ) by {
        assert(lex_lt(n.keys[a], n.keys[b]));
    }
    assert forall|a: int| 0 <= a < p.keys.len() implies pair_fits(
        #[trigger] p.keys[a],
        p.values[a],
    ) by {
        assert(pair_fits(n.keys[a], n.values[a]));
    }
    if n.leaf {
        assert(node_wf_in(disk, p, h));
        let z = zip_kvs(n.keys, n.values);
        assert(node_kvs_in(disk, p, h) =~= z.drop_last());
        assert(z =~= z.drop_last() + seq![(n.keys.last(), n.values.last())]);
    } else {
        let hc = (h - 1) as nat;
        assert forall|a: int| 0 <= a < p.children.len() implies subtree_wf(
            disk,
            #[trigger] p.children[a],
            hc,
        ) && min_filled(disk, p.children[a]) by {
            assert(p.children[a] == n.children[a]);
            assert(subtree_wf(disk, n.children[a], hc));
            assert(min_filled(disk, n.children[a]));
        }
        assert forall|a: int| 0 <= a < p.keys.len() implies all_below(
            subtree_kvs(disk, p.children[a], hc),
            #[trigger] p.keys[a],
        ) && all_above(subtree_kvs(disk, p.children[a + 1], hc), p.keys[a]) by {
            assert(all_below(subtree_kvs(disk, n.children[a], hc), n.keys[a]));
            assert(all_above(subtree_kvs(disk, n.children[a + 1], hc), n.keys[a]));
        }
        assert(node_wf_in(disk, p, h));
        lemma_inter_split(disk, n.keys, n.values, n.children, hc, m + 1);
        lemma_inter_last_key(
            disk,
            n.keys.take(m + 1),
            n.values.take(m + 1),
            n.children.take(m + 1),
            hc,
        );
        assert(n.keys.take(m + 1) =~= n.keys);
        assert(n.values.take(m + 1) =~= n.values);
        assert(n.keys.take(m + 1).take(m) =~= p.keys);
        assert(n.values.take(m + 1).take(m) =~= p.values);
        assert(n.children.take(m + 1) =~= p.children);
        assert(n.keys.skip(m + 1).len() == 0);
        assert(n.children.skip(m + 1).len() == 1);
        assert(n.children.skip(m + 1)[0] == n.children.last());
        assert(inter_kvs(disk, n.keys.skip(m + 1), n.values.skip(m + 1), n.children.skip(m + 1), hc)
            == subtree_kvs(disk, n.children.last(), hc));
        assert(n.keys.take(m + 1).last() == n.keys.last());
        assert(n.values.take(m + 1).last() == n.values.last());
        assert(node_kvs_in(disk, n, h) == (node_kvs_in(disk, p, h) + seq![
            (n.keys.last(), n.values.last())]) + subtree_kvs(disk, n.children.last(), hc));
        assert((node_kvs_in(disk, p, h) + seq![(n.keys.last(), n.values.last())]) + subtree_kvs(
            disk,
            n.children.last(),
            hc,
        ) =~= node_kvs_in(disk, p, h) + seq![(n.keys.last(), n.values.last())] + subtree_kvs(
            disk,
            n.children.last(),
            hc,
        ));
    }
}

/// Dropping a node's first entry keeps it well-formed; its contents lose
/// the first entry and, when internal, the first child's stretch.
#[verifier::rlimit(100)]
#[verifier::spinoff_prover]
pub proof fn lemma_pop_first(disk: Seq<u8>, n: NodeV, h: nat)
    requires
        node_wf_in(disk, n, h),
        n.keys.len() >= 1,
    ensures
        node_wf_in(disk, popped_first(n), h),
        n.leaf ==> node_kvs_in(disk, n, h) == seq![(n.keys.first(), n.values.first())]
            + node_kvs_in(disk, popped_first(n), h),
        !n.leaf ==> node_kvs_in(disk, n, h) == subtree_kvs(disk, n.children.first(), (h - 1) as nat)
            + seq![(n.keys.first(), n.values.first())] + node_kvs_in(disk, popped_first(n), h),
{
    let p = popped_first(n);
    assert forall|a: int, b: int| 0 <= a < b < p.keys.len() implies lex_lt(
        p.keys[a],
        p.keys[b],
    ) by {
        assert(lex_lt(n.keys[a + 1], n.keys[b + 1]));
    }
    assert forall|a: int| 0 <= a < p.keys.len() implies pair_fits(
        #[trigger] p.keys[a],
        p.values[a],
    ) by {
        assert(pair_fits(n.keys[a + 1], n.values[a + 1]));
    }
    if n.leaf {
        assert(node_wf_in(disk, p, h));
        let z = zip_kvs(n.keys, n.values);
        assert(node_kvs_in(disk, p, h) =~= z.drop_first());
        assert(z =~= seq![(n.keys.first(), n.values.first())] + z.drop_first());
    } else {
        let hc = (h - 1) as nat;
        assert forall|a: int| 0 <= a < p.children.len() implies subtree_wf(
            disk,
            #[trigger] p.children[a],
            hc,
        ) && min_filled(disk, p.children[a]) by {
            assert(p.children[a] == n.children[a + 1]);
            assert(subtree_wf(disk, n.children[a + 1], hc));
            assert(min_filled(disk, n.children[a + 1]));
        }
        assert forall|a: int| 0 <= a < p.keys.len() implies all_below(
            subtree_kvs(disk, p.children[a], hc),
            #[trigger] p.keys[a],
        ) && all_above(subtree_kvs(disk, p.children[a + 1], hc), p.keys[a]) by {
            assert(all_below(subtree_kvs(disk, n.children[a + 1], hc), n.keys[a + 1]));
            assert(all_above(subtree_kvs(disk, n.children[a + 2], hc), n.keys[a + 1]));
        }
        assert(node_wf_in(disk, p, h));
        assert(node_kvs_in(disk, n, h) == subtree_kvs(disk, n.children[0], hc) + seq![
            (n.keys[0], n.values[0])] + inter_kvs(
            disk,
            n.keys.drop_first(),
            n.values.drop_first(),
            n.children.drop_first(),
            hc,
        ));
        assert(node_kvs_in(disk, p, h) == inter_kvs(
            disk,
            n.keys.drop_first(),
            n.values.drop_first(),
            n.children.drop_first(),
            hc,
        ));
    }
}

/// Two well-formed nodes of one height, joined around a separating entry
/// that bounds them both, form one well-formed node holding both contents
/// around that entry.
#[verifier::rlimit(100)]
#[verifier::spinoff_prover]
pub proof fn lemma_merge_node(
    disk: Seq<u8>,
    l: NodeV,
    r: NodeV,
    mk: Seq<u8>,
    mv: Seq<u8>,
    h: nat,
)
    requires
        node_wf_in(disk, l, h),
        node_wf_in(disk, r, h),
        l.leaf == r.leaf,
        l.keys.len() + r.keys.len() + 1 <= MAX_KEYS,
        pair_fits(mk, mv),
        all_below(node_kvs_in(disk, l, h), mk),
        all_above(node_kvs_in(disk, r, h), mk),
    ensures
        node_wf_in(disk, merged_node(l, r, mk, mv), h),
        node_kvs_in(disk, merged_node(l, r, mk, mv), h) == node_kvs_in(disk, l, h) + seq![
            (mk, mv)] + node_kvs_in(disk, r, h),
{
    let g = merged_node(l, r, mk, mv);
    let lk = l.keys.len() as int;
    assert forall|a: int| 0 <= a < l.keys.len() implies lex_lt(#[trigger] l.keys[a], mk) by {
        lemma_key_in_kvs(disk, l, h, a);
        let i = choose|i: int|
            0 <= i < node_kvs_in(disk, l, h).len() && #[trigger] node_kvs_in(disk, l, h)[i] == (
            l.keys[a],
            l.values[a],
            );
        assert(lex_lt(node_kvs_in(disk, l, h)[i].0, mk));
    }
    assert forall|a: int| 0 <= a < r.keys.len() implies lex_lt(mk, #[trigger] r.keys[a]) by {
        lemma_key_in_kvs(disk, r, h, a);
        let i = choose|i: int|
            0 <= i < node_kvs_in(disk, r, h).len() && #[trigger] node_kvs_in(disk, r, h)[i] == (
            r.keys[a],
            r.values[a],
            );
        assert(lex_lt(mk, node_kvs_in(disk, r, h)[i].0));
    }
    assert forall|a: int| 0 <= a < g.keys.len() implies #[trigger] g.keys[a] == (if a < lk {
        l.keys[a]
    } else if a == lk {
        mk
    } else {
        r.keys[a - lk - 1]
    }) && g.values[a] == (if a < lk {
        l.values[a]
    } else if a == lk {
        mv
    } else {
        r.values[a - lk - 1]
    }) by {}
    assert forall|a: int, b: int| 0 <= a < b < g.keys.len() implies lex_lt(
        g.keys[a],
        g.keys[b],
    ) by {
        if a < lk && b < lk {
            assert(lex_lt(l.keys[a], l.keys[b]));
        } else if a < lk && b == lk {
        } else if a < lk && b > lk {
            lemma_lex_transitive(l.keys[a], mk, r.keys[b - lk - 1]);
        } else if a == lk {
        } else {
            assert(lex_lt(r.keys[a - lk - 1], r.keys[b - lk - 1]));
        }
    }
    assert forall|a: int| 0 <= a < g.keys.len() implies pair_fits(
        #[trigger] g.keys[a],
        g.values[a],
    ) by {
        if a < lk {
            assert(pair_fits(l.keys[a], l.values[a]));
        } else if a > lk {
            assert(pair_fits(r.keys[a - lk - 1], r.values[a - lk - 1]));
        }
    }
    if g.leaf {
        assert(node_wf_in(disk, g, h));
        assert(node_kvs_in(disk, g, h) =~= node_kvs_in(disk, l, h) + seq![(mk, mv)]
            + node_kvs_in(disk, r, h));
    } else {
        let hc = (h - 1) as nat;
        assert forall|a: int| 0 <= a < g.children.len() implies #[trigger] g.children[a] == (if a
            <= lk {
            l.children[a]
        } else {
            r.children[a - lk - 1]
        }) by {}
        lemma_node_split(disk, l, h, lk);
        assert(right_part(disk, l, hc, lk) =~= Seq::<(Seq<u8>, Seq<u8>)>::empty());
        assert(node_kvs_in(disk, l, h) =~= left_part(disk, l, hc, lk) + subtree_kvs(
            disk,
            l.children[lk],
            hc,
        ));
        lemma_bounds_split(left_part(disk, l, hc, lk), subtree_kvs(disk, l.children[lk], hc), mk);
        lemma_node_split(disk, r, h, 0);
        assert(left_part(disk, r, hc, 0) =~= Seq::<(Seq<u8>, Seq<u8>)>::empty());
        assert(node_kvs_in(disk, r, h) =~= subtree_kvs(disk, r.children[0], hc) + right_part(
            disk,
            r,
            hc,
            0,
        ));
        lemma_bounds_split(subtree_kvs(disk, r.children[0], hc), right_part(disk, r, hc, 0), mk);
        assert forall|a: int| 0 <= a < g.children.len() implies subtree_wf(
            disk,
            #[trigger] g.children[a],
            hc,
        ) && min_filled(disk, g.children[a]) by {
            if a <= lk {
                assert(subtree_wf(disk, l.children[a], hc));
                assert(min_filled(disk, l.children[a]));
            } else {
                assert(subtree_wf(disk, r.children[a - lk - 1], hc));
                assert(min_filled(disk, r.children[a - lk - 1]));
            }
        }
        assert forall|a: int| 0 <= a < g.keys.len() implies all_below(
            subtree_kvs(disk, g.children[a], hc),
            #[trigger] g.keys[a],
        ) && all_above(subtree_kvs(disk, g.children[a + 1], hc), g.keys[a]) by {
            if a < lk {
                assert(all_below(subtree_kvs(disk, l.children[a], hc), l.keys[a]));
                assert(all_above(subtree_kvs(disk, l.children[a + 1], hc), l.keys[a]));
            } else if a == lk {
                assert(g.children[a] == l.children[lk]);
                assert(g.children[a + 1] == r.children[0]);
                assert(all_below(subtree_kvs(disk, l.children[lk], hc), mk));
                assert(all_above(subtree_kvs(disk, r.children[0], hc), mk));
            } else {
                assert(all_below(
                    subtree_kvs(disk, r.children[a - lk - 1], hc),
                    r.keys[a - lk - 1],
                ));
                assert(all_above(subtree_kvs(disk, r.children[a - lk], hc), r.keys[a - lk - 1]));
            }
        }
        assert(node_wf_in(disk, g, h));
        // the contents: split the joined node after the left half
        lemma_inter_split(disk, g.keys, g.values, g.children, hc, lk + 1);
        lemma_inter_last_key(
            disk,
            g.keys.take(lk + 1),
            g.values.take(lk + 1),
            g.children.take(lk + 1),
            hc,
        );
        assert(g.keys.take(lk + 1).take(lk) =~= l.keys);
        assert(g.values.take(lk + 1).take(lk) =~= l.values);
        assert(g.children.take(lk + 1) =~= l.children);
        assert(g.keys.take(lk + 1).last() == mk);
        assert(g.values.take(lk + 1).last() == mv);
        assert(g.keys.skip(lk + 1) =~= r.keys);
        assert(g.values.skip(lk + 1) =~= r.values);
        assert(g.children.skip(lk + 1) =~= r.children);
        assert(node_kvs_in(disk, g, h) == (node_kvs_in(disk, l, h) + seq![(mk, mv)])
            + node_kvs_in(disk, r, h));
        assert((node_kvs_in(disk, l, h) + seq![(mk, mv)]) + node_kvs_in(disk, r, h)
            =~= node_kvs_in(disk, l, h) + seq![(mk, mv)] + node_kvs_in(disk, r, h));
    }
}

/// Putting a bounded entry (and, when internal, a bounded child) in front
/// of a node keeps it well-formed and prepends that stretch to its
/// contents.
#[verifier::rlimit(100)]
#[verifier::spinoff_prover]
pub proof fn lemma_push_front(disk: Seq<u8>, n: NodeV, h: nat, k: Seq<u8>, v: Seq<u8>, c: u64)
    requires
        node_wf_in(disk, n, h),
        n.keys.len() < MAX_KEYS,
        pair_fits(k, v),
        all_above(node_kvs_in(disk, n, h), k),
        !n.leaf ==> subtree_wf(disk, c, (h - 1) as nat) && min_filled(disk, c) && all_below(
            subtree_kvs(disk, c, (h - 1) as nat),
            k,
        ),
    ensures
        node_wf_in(disk, pushed_front(n, k, v, c), h),
        n.leaf ==> node_kvs_in(disk, pushed_front(n, k, v, c), h) == seq![(k, v)] + node_kvs_in(
            disk,
            n,
            h,
        ),
        !n.leaf ==> node_kvs_in(disk, pushed_front(n, k, v, c), h) == subtree_kvs(
            disk,
            c,
            (h - 1) as nat,
        ) + seq![(k, v)] + node_kvs_in(disk, n, h),
{
    let g = pushed_front(n, k, v, c);
    assert forall|a: int| 0 <= a < n.keys.len() implies lex_lt(k, #[trigger] n.keys[a]) by {
        lemma_key_in_kvs(disk, n, h, a);
        let i = choose|i: int|
            0 <= i < node_kvs_in(disk, n, h).len() && #[trigger] node_kvs_in(disk, n, h)[i] == (
            n.keys[a],
            n.values[a],
            );
        assert(lex_lt(k, node_kvs_in(disk, n, h)[i].0));
    }
    assert forall|a: int, b: int| 0 <= a < b < g.keys.len() implies lex_lt(
        g.keys[a],
        g.keys[b],
    ) by {
        if a > 0 {
            assert(lex_lt(n.keys[a - 1], n.keys[b - 1]));
        }
    }
    assert forall|a: int| 0 <= a < g.keys.len() implies pair_fits(
        #[trigger] g.keys[a],
        g.values[a],
    ) by {
        if a > 0 {
            assert(pair_fits(n.keys[a - 1], n.values[a - 1]));
        }
    }
    if n.leaf {
        assert(node_wf_in(disk, g, h));
        assert(node_kvs_in(disk, g, h) =~= seq![(k, v)] + node_kvs_in(disk, n, h));
    } else {
        let hc = (h - 1) as nat;
        lemma_node_split(disk, n, h, 0);
        assert(left_part(disk, n, hc, 0) =~= Seq::<(Seq<u8>, Seq<u8>)>::empty());
        assert(node_kvs_in(disk, n, h) =~= subtree_kvs(disk, n.children[0], hc) + right_part(
            disk,
            n,
            hc,
            0,
        ));
        lemma_bounds_split(subtree_kvs(disk, n.children[0], hc), right_part(disk, n, hc, 0), k);
        assert forall|a: int| 0 <= a < g.children.len() implies subtree_wf(
            disk,
            #[trigger] g.children[a],
            hc,
        ) && min_filled(disk, g.children[a]) by {
            if a > 0 {
                assert(subtree_wf(disk, n.children[a - 1], hc));
                assert(min_filled(disk, n.children[a - 1]));
            }
        }
        assert forall|a: int| 0 <= a < g.keys.len() implies all_below(
            subtree_kvs(disk, g.children[a], hc),
            #[trigger] g.keys[a],
        ) && all_above(subtree_kvs(disk, g.children[a + 1], hc), g.keys[a]) by {
            if a == 0 {
                assert(g.children[0] == c);
                assert(g.children[1] == n.children[0]);
                assert(all_above(subtree_kvs(disk, n.children[0], hc), k));
            } else {
                assert(all_below(subtree_kvs(disk, n.children[a - 1], hc), n.keys[a - 1]));
                assert(all_above(subtree_kvs(disk, n.children[a], hc), n.keys[a - 1]));
            }
        }
        assert(node_wf_in(disk, g, h));
        assert(g.keys.drop_first() =~= n.keys);
        assert(g.values.drop_first() =~= n.values);
        assert(g.children.drop_first() =~= n.children);
        assert(node_kvs_in(disk, g, h) == subtree_kvs(disk, c, hc) + seq![(k, v)] + node_kvs_in(
            disk,
            n,
            h,
        ));
    }
}

/// Putting a bounded entry (and, when internal, a bounded child) at the
/// back of a node keeps it well-formed and appends that stretch to its
/// contents.
#[verifier::rlimit(100)]
#[verifier::spinoff_prover]
pub proof fn lemma_push_back(disk: Seq<u8>, n: NodeV, h: nat, k: Seq<u8>, v: Seq<u8>, c: u64)
    requires
        node_wf_in(disk, n, h),
        n.keys.len() < MAX_KEYS,
        pair_fits(k, v),
        all_below(node_kvs_in(disk, n, h), k),
        !n.leaf ==> subtree_wf(disk, c, (h - 1) as nat) && min_filled(disk, c) && all_above(
            subtree_kvs(disk, c, (h - 1) as nat),
            k,
        ),
    ensures
        node_wf_in(disk, pushed_back(n, k, v, c), h),
        n.leaf ==> node_kvs_in(disk, pushed_back(n, k, v, c), h) == node_kvs_in(disk, n, h) + seq![
            (k, v)],
        !n.leaf ==> node_kvs_in(disk, pushed_back(n, k, v, c), h) == node_kvs_in(disk, n, h)
            + seq![(k, v)] + subtree_kvs(disk, c, (h - 1) as nat),
{
    let g = pushed_back(n, k, v, c);
    let m = n.keys.len() as int;
    assert forall|a: int| 0 <= a < n.keys.len() implies lex_lt(#[trigger] n.keys[a], k) by {
        lemma_key_in_kvs(disk, n, h, a);
        let i = choose|i: int|
            0 <= i < node_kvs_in(disk, n, h).len() && #[trigger] node_kvs_in(disk, n, h)[i] == (
            n.keys[a],
            n.values[a],
            );
        assert(lex_lt(node_kvs_in(disk, n, h)[i].0, k));
    }
    assert forall|a: int, b: int| 0 <= a < b < g.keys.len() implies lex_lt(
        g.keys[a],
        g.keys[b],
    ) by {
        if b < m {
            assert(lex_lt(n.keys[a], n.keys[b]));
        }
    }
    assert forall|a: int| 0 <= a < g.keys.len() implies pair_fits(
        #[trigger] g.keys[a],
        g.values[a],
    ) by {
        if a < m {
            assert(pair_fits(n.keys[a], n.values[a]));
        }
    }
    if n.leaf {
        assert(node_wf_in(disk, g, h));
        assert(node_kvs_in(disk, g, h) =~= node_kvs_in(disk, n, h) + seq![(k, v)]);
    } else {
        let hc = (h - 1) as nat;
        lemma_node_split(disk, n, h, m);
        assert(right_part(disk, n, hc, m) =~= Seq::<(Seq<u8>, Seq<u8>)>::empty());
        assert(node_kvs_in(disk, n, h) =~= left_part(disk, n, hc, m) + subtree_kvs(
            disk,
            n.children[m],
            hc,
        ));
        lemma_bounds_split(left_part(disk, n, hc, m), subtree_kvs(disk, n.children[m], hc), k);
        assert forall|a: int| 0 <= a < g.children.len() implies subtree_wf(
            disk,
            #[trigger] g.children[a],
            hc,
        ) && min_filled(disk, g.children[a]) by {
            if a <= m {
                assert(subtree_wf(disk, n.children[a], hc));
                assert(min_filled(disk, n.children[a]));
            }
        }
        assert forall|a: int| 0 <= a < g.keys.len() implies all_below(
            subtree_kvs(disk, g.children[a], hc),
            #[trigger] g.keys[a],
        ) && all_above(subtree_kvs(disk, g.children[a + 1], hc), g.keys[a]) by {
            if a < m {
                assert(all_below(subtree_kvs(disk, n.children[a], hc), n.keys[a]));
                assert(all_above(subtree_kvs(disk, n.children[a + 1], hc), n.keys[a]));
            } else {
                assert(g.children[a] == n.children[m]);
                assert(g.children[a + 1] == c);
                assert(all_below(subtree_kvs(disk, n.children[m], hc), k));
            }
        }
        assert(node_wf_in(disk, g, h));
        lemma_inter_split(disk, g.keys, g.values, g.children, hc, m + 1);
        lemma_inter_last_key(
            disk,
            g.keys.take(m + 1),
            g.values.take(m + 1),
            g.children.take(m + 1),
            hc,
        );
        assert(g.keys.take(m + 1) =~= g.keys);
        assert(g.keys.take(m + 1).take(m) =~= n.keys);
        assert(g.values.take(m + 1).take(m) =~= n.values);
        assert(g.children.take(m + 1) =~= n.children);
        assert(g.keys.take(m + 1).last() == k);
        assert(g.values.take(m + 1).last() == v);
        assert(g.keys.skip(m + 1).len() == 0);
        assert(g.children.skip(m + 1).len() == 1);
        assert(g.children.skip(m + 1)[0] == c);
        assert(inter_kvs(disk, g.keys.skip(m + 1), g.values.skip(m + 1), g.children.skip(m + 1), hc)
            == subtree_kvs(disk, c, hc));
        assert(node_kvs_in(disk, g, h) == (node_kvs_in(disk, n, h) + seq![(k, v)]) + subtree_kvs(
            disk,
            c,
            hc,
        ));
        assert((node_kvs_in(disk, n, h) + seq![(k, v)]) + subtree_kvs(disk, c, hc) =~= node_kvs_in(
            disk,
            n,
            h,
        ) + seq![(k, v)] + subtree_kvs(disk, c, hc));
    }
}

/// Replacing the separator at `idx` and the two children around it keeps
/// the node well-formed, provided the new pieces respect the neighbouring
/// keys.
#[verifier::rlimit(100)]
#[verifier::spinoff_prover]
pub proof fn lemma_segment_update_wf(
    d1: Seq<u8>,
    d2: Seq<u8>,
    n: NodeV,
    n2: NodeV,
    h: nat,
    idx: int,
    aoff: u64,
    boff: u64,
    sk: Seq<u8>,
    sv: Seq<u8>,
)
    requires
        node_wf_in(d1, n, h),
        !n.leaf,
        0 <= idx < n.keys.len(),
        agree_past_header(d2, d1),
        n2.keys == n.keys.update(idx, sk),
        n2.values == n.values.update(idx, sv),
        n2.children == n.children.update(idx, aoff).update(idx + 1, boff),
        n2.leaf == false,
        subtree_wf(d2, aoff, (h - 1) as nat),
        min_filled(d2, aoff),
        subtree_wf(d2, boff, (h - 1) as nat),
        min_filled(d2, boff),
        pair_fits(sk, sv),
        all_below(subtree_kvs(d2, aoff, (h - 1) as nat), sk),
        all_above(subtree_kvs(d2, boff, (h - 1) as nat), sk),
        idx > 0 ==> lex_lt(n.keys[idx - 1], sk) && all_above(
            subtree_kvs(d2, aoff, (h - 1) as nat),
            n.keys[idx - 1],
        ),
        idx + 1 < n.keys.len() ==> lex_lt(sk, n.keys[idx + 1]) && all_below(
            subtree_kvs(d2, boff, (h - 1) as nat),
            n.keys[idx + 1],
        ),
    ensures
        node_wf_in(d2, n2, h),
{
    let hc = (h - 1) as nat;
    assert forall|a: int, b: int| 0 <= a < b < n2.keys.len() implies lex_lt(
        n2.keys[a],
        n2.keys[b],
    ) by {
        if a != idx && b != idx {
            assert(lex_lt(n.keys[a], n.keys[b]));
        } else if a == idx {
            assert(lex_lt(sk, n.keys[idx + 1]));
            if b > idx + 1 {
                assert(lex_lt(n.keys[idx + 1], n.keys[b]));
                lemma_lex_transitive(sk, n.keys[idx + 1], n.keys[b]);
            }
        } else {
            assert(lex_lt(n.keys[idx - 1], sk));
            if a < idx - 1 {
                assert(lex_lt(n.keys[a], n.keys[idx - 1]));
                lemma_lex_transitive(n.keys[a], n.keys[idx - 1], sk);
            }
        }
    }
    assert forall|a: int| 0 <= a < n2.keys.len() implies pair_fits(
        #[trigger] n2.keys[a],
        n2.values[a],
    ) by {
        if a != idx {
            assert(pair_fits(n.keys[a], n.values[a]));
        }
    }
    assert forall|a: int| 0 <= a < n2.children.len() implies subtree_wf(
        d2,
        #[trigger] n2.children[a],
        hc,
    ) && min_filled(d2, n2.children[a]) by {
        if a != idx && a != idx + 1 {
            assert(n2.children[a] == n.children[a]);
            assert(subtree_wf(d1, n.children[a], hc));
            assert(min_filled(d1, n.children[a]));
            lemma_subtree_frame(d1, d2, n.children[a], hc);
            lemma_node_at_frame(d1, d2, n.children[a]);
        }
    }
    assert forall|a: int| 0 <= a < n2.keys.len() implies all_below(
        subtree_kvs(d2, n2.children[a], hc),
        #[trigger] n2.keys[a],
    ) && all_above(subtree_kvs(d2, n2.children[a + 1], hc), n2.keys[a]) by {
        if a < idx - 1 || a > idx + 1 {
            assert(n2.children[a] == n.children[a]);
            assert(n2.children[a + 1] == n.children[a + 1]);
            assert(all_below(subtree_kvs(d1, n.children[a], hc), n.keys[a]));
            assert(all_above(subtree_kvs(d1, n.children[a + 1], hc), n.keys[a]));
            lemma_subtree_frame(d1, d2, n.children[a], hc);
            lemma_subtree_frame(d1, d2, n.children[a + 1], hc);
        } else if a == idx - 1 {
            assert(n2.children[a] == n.children[a]);
            assert(n2.children[a + 1] == aoff);
            assert(all_below(subtree_kvs(d1, n.children[a], hc), n.keys[a]));
            lemma_subtree_frame(d1, d2, n.children[a], hc);
            assert(all_above(subtree_kvs(d2, aoff, hc), n.keys[idx - 1]));
        } else if a == idx {
            assert(n2.children[a] == aoff);
            assert(n2.children[a + 1] == boff);
        } else {
            assert(n2.children[a] == boff);
            assert(n2.children[a + 1] == n.children[a + 1]);
            assert(all_below(subtree_kvs(d2, boff, hc), n.keys[idx + 1]));
            assert(all_above(subtree_kvs(d1, n.children[a + 1], hc), n.keys[a]));
            lemma_subtree_frame(d1, d2, n.children[a + 1], hc);
        }
    }
    assert(node_wf_in(d2, n2, h));
}

/// Replacing the separator at `idx` and the two children around it changes
/// the node's contents only in that stretch.
#[verifier::rlimit(100)]
#[verifier::spinoff_prover]
pub proof fn lemma_segment_update_kvs(
    d1: Seq<u8>,
    d2: Seq<u8>,
    n: NodeV,
    n2: NodeV,
    h: nat,
    idx: int,
    aoff: u64,
    boff: u64,
    sk: Seq<u8>,
    sv: Seq<u8>,
)
    requires
        node_wf_in(d1, n, h),
        node_wf_in(d2, n2, h),
        !n.leaf,
        0 <= idx < n.keys.len(),
        agree_past_header(d2, d1),
        n2.keys == n.keys.update(idx, sk),
        n2.values == n.values.update(idx, sv),
        n2.children == n.children.update(idx, aoff).update(idx + 1, boff),
        n2.leaf == false,
    ensures
        node_kvs_in(d2, n2, h) == left_part(d1, n, (h - 1) as nat, idx) + (subtree_kvs(
            d2,
            aoff,
            (h - 1) as nat,
        ) + seq![(sk, sv)] + subtree_kvs(d2, boff, (h - 1) as nat)) + right_part(
            d1,
            n,
            (h - 1) as nat,
            idx + 1,
        ),
        node_kvs_in(d1, n, h) == left_part(d1, n, (h - 1) as nat, idx) + (subtree_kvs(
            d1,
            n.children[idx],
            (h - 1) as nat,
        ) + seq![(n.keys[idx], n.values[idx])] + subtree_kvs(
            d1,
            n.children[idx + 1],
            (h - 1) as nat,
        )) + right_part(d1, n, (h - 1) as nat, idx + 1),
{
    let hc = (h - 1) as nat;
    let lp = left_part(d1, n, hc, idx);
    let tail = right_part(d1, n, hc, idx + 1);
    // the old node around children idx and idx + 1
    lemma_node_split(d1, n, h, idx);
    assert(right_part(d1, n, hc, idx) == seq![(n.keys[idx], n.values[idx])] + (subtree_kvs(
        d1,
        n.children[idx + 1],
        hc,
    ) + tail)) by {
        let tk = n.keys.skip(idx + 1);
        let tv = n.values.skip(idx + 1);
        let tc = n.children.skip(idx + 1);
        assert(tc[0] == n.children[idx + 1]);
        if idx + 1 < n.keys.len() {
            assert(tk[0] == n.keys[idx + 1]);
            assert(tv[0] == n.values[idx + 1]);
            assert(tk.drop_first() =~= n.keys.skip(idx + 2));
            assert(tv.drop_first() =~= n.values.skip(idx + 2));
            assert(tc.drop_first() =~= n.children.skip(idx + 2));
            assert(inter_kvs(d1, tk, tv, tc, hc) == subtree_kvs(d1, n.children[idx + 1], hc)
                + seq![(n.keys[idx + 1], n.values[idx + 1])] + inter_kvs(
                d1,
                n.keys.skip(idx + 2),
                n.values.skip(idx + 2),
                n.children.skip(idx + 2),
                hc,
            ));
            assert(subtree_kvs(d1, n.children[idx + 1], hc) + seq![
                (n.keys[idx + 1], n.values[idx + 1])] + inter_kvs(
                d1,
                n.keys.skip(idx + 2),
                n.values.skip(idx + 2),
                n.children.skip(idx + 2),
                hc,
            ) =~= subtree_kvs(d1, n.children[idx + 1], hc) + tail);
        } else {
            assert(tk.len() == 0);
            assert(tc.len() == 1);
            assert(inter_kvs(d1, tk, tv, tc, hc) == subtree_kvs(d1, n.children[idx + 1], hc));
            assert(tail =~= Seq::<(Seq<u8>, Seq<u8>)>::empty());
            assert(subtree_kvs(d1, n.children[idx + 1], hc) + tail =~= subtree_kvs(
                d1,
                n.children[idx + 1],
                hc,
            ));
        }
    }
    assert(node_kvs_in(d1, n, h) =~= lp + (subtree_kvs(d1, n.children[idx], hc) + seq![
        (n.keys[idx], n.values[idx])] + subtree_kvs(d1, n.children[idx + 1], hc)) + tail);
    // the new node around the same stretch
    lemma_node_split(d2, n2, h, idx);
    assert(n2.children[idx] == aoff);
    assert(left_part(d2, n2, hc, idx) == lp) by {
        assert(n2.keys.take(idx) =~= n.keys.take(idx));
        assert(n2.values.take(idx) =~= n.values.take(idx));
        assert(n2.children.take(idx) =~= n.children.take(idx));
        assert forall|j: int| 0 <= j < n.children.take(idx).len() implies subtree_wf(
            d1,
            #[trigger] n.children.take(idx)[j],
            hc,
        ) by {
            assert(n.children.take(idx)[j] == n.children[j]);
        }
        lemma_inter_frame(d1, d2, n.keys.take(idx), n.values.take(idx), n.children.take(idx), hc);
    }
    assert(right_part(d2, n2, hc, idx) == seq![(sk, sv)] + (subtree_kvs(d2, boff, hc) + tail)) by {
        assert(n2.keys[idx] == sk);
        assert(n2.values[idx] == sv);
        let tk = n2.keys.skip(idx + 1);
        let tv = n2.values.skip(idx + 1);
        let tc = n2.children.skip(idx + 1);
        assert(tk =~= n.keys.skip(idx + 1));
        assert(tv =~= n.values.skip(idx + 1));
        assert(tc =~= seq![boff] + n.children.skip(idx + 2));
        assert(tc[0] == boff);
        assert(tc.drop_first() =~= n.children.skip(idx + 2));
        if idx + 1 < n.keys.len() {
            assert(tk[0] == n.keys[idx + 1]);
            assert(tk.drop_first() =~= n.keys.skip(idx + 2));
            assert(tv.drop_first() =~= n.values.skip(idx + 2));
            assert(inter_kvs(d2, tk, tv, tc, hc) == subtree_kvs(d2, boff, hc) + seq![
                (n.keys[idx + 1], n.values[idx + 1])] + inter_kvs(
                d2,
                n.keys.skip(idx + 2),
                n.values.skip(idx + 2),
                n.children.skip(idx + 2),
                hc,
            ));
            assert(inter_kvs(d2, n.keys.skip(idx + 2), n.values.skip(idx + 2),
                n.children.skip(idx + 2), hc) == inter_kvs(
                d1,
                n.keys.skip(idx + 2),
                n.values.skip(idx + 2),
                n.children.skip(idx + 2),
                hc,
            )) by {
                assert forall|j: int| 0 <= j < n.children.skip(idx + 2).len() implies subtree_wf(
                    d1,
                    #[trigger] n.children.skip(idx + 2)[j],
                    hc,
                ) by {
                    assert(n.children.skip(idx + 2)[j] == n.children[idx + 2 + j]);
                }
                lemma_inter_frame(
                    d1,
                    d2,
                    n.keys.skip(idx + 2),
                    n.values.skip(idx + 2),
                    n.children.skip(idx + 2),
                    hc,
                );
            }
            assert(subtree_kvs(d2, boff, hc) + seq![(n.keys[idx + 1], n.values[idx + 1])]
                + inter_kvs(
                d1,
                n.keys.skip(idx + 2),
                n.values.skip(idx + 2),
                n.children.skip(idx + 2),
                hc,
            ) =~= subtree_kvs(d2, boff, hc) + tail);
        } else {
            assert(tk.len() == 0);
            assert(tc.len() == 1);
            assert(inter_kvs(d2, tk, tv, tc, hc) == subtree_kvs(d2, boff, hc));
            assert(tail =~= Seq::<(Seq<u8>, Seq<u8>)>::empty());
            assert(subtree_kvs(d2, boff, hc) + tail =~= subtree_kvs(d2, boff, hc));
        }
    }
    assert(node_kvs_in(d2, n2, h) =~= lp + (subtree_kvs(d2, aoff, hc) + seq![(sk, sv)]
        + subtree_kvs(d2, boff, hc)) + tail);
}

/// Merging the children around the separator at `idx` into one child keeps
/// the node well-formed and its contents unchanged.
#[verifier::rlimit(100)]
#[verifier::spinoff_prover]
pub proof fn lemma_merge_update(
    d1: Seq<u8>,
    d2: Seq<u8>,
    n: NodeV,
    n2: NodeV,
    h: nat,
    idx: int,
    moff: u64,
)
    requires
        node_wf_in(d1, n, h),
        !n.leaf,
        0 <= idx < n.keys.len(),
        agree_past_header(d2, d1),
        n2.keys == n.keys.remove(idx),
        n2.values == n.values.remove(idx),
        n2.children == n.children.update(idx, moff).remove(idx + 1),
        n2.leaf == false,
        subtree_wf(d2, moff, (h - 1) as nat),
        min_filled(d2, moff),
        subtree_kvs(d2, moff, (h - 1) as nat) == subtree_kvs(d1, n.children[idx], (h - 1) as nat)
            + seq![(n.keys[idx], n.values[idx])] + subtree_kvs(
            d1,
            n.children[idx + 1],
            (h - 1) as nat,
        ),
    ensures
        node_wf_in(d2, n2, h),
        node_kvs_in(d2, n2, h) == node_kvs_in(d1, n, h),
{
    let hc = (h - 1) as nat;
    let mseg = subtree_kvs(d2, moff, hc);
    let midl = subtree_kvs(d1, n.children[idx], hc);
    let midr = subtree_kvs(d1, n.children[idx + 1], hc);
    assert(n2.keys.len() == n.keys.len() - 1);
    assert(n2.children.len() == n.children.len() - 1);
    assert forall|a: int| 0 <= a < n2.keys.len() implies #[trigger] n2.keys[a] == (if a < idx {
        n.keys[a]
    } else {
        n.keys[a + 1]
    }) && n2.values[a] == (if a < idx {
        n.values[a]
    } else {
        n.values[a + 1]
    }) by {}
    assert forall|a: int| 0 <= a < n2.children.len() implies #[trigger] n2.children[a] == (if a
        < idx {
        n.children[a]
    } else if a == idx {
        moff
    } else {
        n.children[a + 1]
    }) by {}
    assert forall|a: int, b: int| 0 <= a < b < n2.keys.len() implies lex_lt(
        n2.keys[a],
        n2.keys[b],
    ) by {
        let a1 = if a < idx { a } else { a + 1 };
        let b1 = if b < idx { b } else { b + 1 };
        assert(lex_lt(n.keys[a1], n.keys[b1]));
    }
    assert forall|a: int| 0 <= a < n2.keys.len() implies pair_fits(
        #[trigger] n2.keys[a],
        n2.values[a],
    ) by {
        let a1 = if a < idx { a } else { a + 1 };
        assert(pair_fits(n.keys[a1], n.values[a1]));
    }
    assert forall|a: int| 0 <= a < n2.children.len() implies subtree_wf(
        d2,
        #[trigger] n2.children[a],
        hc,
    ) && min_filled(d2, n2.children[a]) by {
        if a != idx {
            let a1 = if a < idx { a } else { a + 1 };
            assert(subtree_wf(d1, n.children[a1], hc));
            assert(min_filled(d1, n.children[a1]));
            lemma_subtree_frame(d1, d2, n.children[a1], hc);
            lemma_node_at_frame(d1, d2, n.children[a1]);
        }
    }
    assert forall|a: int| 0 <= a < n2.keys.len() implies all_below(
        subtree_kvs(d2, n2.children[a], hc),
        #[trigger] n2.keys[a],
    ) && all_above(subtree_kvs(d2, n2.children[a + 1], hc), n2.keys[a]) by {
        if a < idx - 1 {
            assert(all_below(subtree_kvs(d1, n.children[a], hc), n.keys[a]));
            assert(all_above(subtree_kvs(d1, n.children[a + 1], hc), n.keys[a]));
            lemma_subtree_frame(d1, d2, n.children[a], hc);
            lemma_subtree_frame(d1, d2, n.children[a + 1], hc);
        } else if a == idx - 1 {
            // left neighbour of the merged child
            assert(n2.keys[a] == n.keys[idx - 1]);
            assert(n2.children[a] == n.children[a]);
            assert(all_below(subtree_kvs(d1, n.children[a], hc), n.keys[a]));
            lemma_subtree_frame(d1, d2, n.children[a], hc);
            assert(all_above(mseg, n.keys[idx - 1])) by {
                assert(all_above(midl, n.keys[idx - 1]));
                assert(lex_lt(n.keys[idx - 1], n.keys[idx]));
                assert(all_above(midr, n.keys[idx]));
                lemma_all_above_weaken(midr, n.keys[idx - 1], n.keys[idx]);
                assert forall|j: int| 0 <= j < mseg.len() implies lex_lt(
                    n.keys[idx - 1],
                    #[trigger] mseg[j].0,
                ) by {
                    if j < midl.len() {
                        assert(mseg[j] == midl[j]);
                    } else if j == midl.len() {
                        assert(mseg[j] == (n.keys[idx], n.values[idx]));
                    } else {
                        assert(mseg[j] == midr[j - midl.len() - 1]);
                    }
                }
            }
        } else if a == idx {
            // the merged child against its right separator
            assert(n2.keys[a] == n.keys[idx + 1]);
            assert(n2.children[a] == moff);
            assert(n2.children[a + 1] == n.children[idx + 2]);
            assert(all_below(mseg, n.keys[idx + 1])) by {
                assert(all_below(midl, n.keys[idx]));
                assert(lex_lt(n.keys[idx], n.keys[idx + 1]));
                lemma_all_below_weaken(midl, n.keys[idx], n.keys[idx + 1]);
                assert(all_below(midr, n.keys[idx + 1]));
                assert forall|j: int| 0 <= j < mseg.len() implies lex_lt(
                    #[trigger] mseg[j].0,
                    n.keys[idx + 1],
                ) by {
                    if j < midl.len() {
                        assert(mseg[j] == midl[j]);
                    } else if j == midl.len() {
                        assert(mseg[j] == (n.keys[idx], n.values[idx]));
                    } else {
                        assert(mseg[j] == midr[j - midl.len() - 1]);
                    }
                }
            }
            assert(all_above(subtree_kvs(d1, n.children[idx + 2], hc), n.keys[idx + 1]));
            lemma_subtree_frame(d1, d2, n.children[idx + 2], hc);
        } else {
            assert(n2.keys[a] == n.keys[a + 1]);
            assert(n2.children[a] == n.children[a + 1]);
            assert(n2.children[a + 1] == n.children[a + 2]);
            assert(all_below(subtree_kvs(d1, n.children[a + 1], hc), n.keys[a + 1]));
            assert(all_above(subtree_kvs(d1, n.children[a + 2], hc), n.keys[a + 1]));
            lemma_subtree_frame(d1, d2, n.children[a + 1], hc);
            lemma_subtree_frame(d1, d2, n.children[a + 2], hc);
        }
    }
    assert(node_wf_in(d2, n2, h));
    // contents: both nodes split into the same three stretches
    let lp = left_part(d1, n, hc, idx);
    let tail = right_part(d1, n, hc, idx + 1);
    lemma_node_split(d1, n, h, idx);
    assert(right_part(d1, n, hc, idx) == seq![(n.keys[idx], n.values[idx])] + (midr + tail)) by {
        let tk = n.keys.skip(idx + 1);
        let tv = n.values.skip(idx + 1);
        let tc = n.children.skip(idx + 1);
        assert(tc[0] == n.children[idx + 1]);
        if idx + 1 < n.keys.len() {
            assert(tk[0] == n.keys[idx + 1]);
            assert(tv[0] == n.values[idx + 1]);
            assert(tk.drop_first() =~= n.keys.skip(idx + 2));
            assert(tv.drop_first() =~= n.values.skip(idx + 2));
            assert(tc.drop_first() =~= n.children.skip(idx + 2));
            assert(inter_kvs(d1, tk, tv, tc, hc) == midr + seq![
                (n.keys[idx + 1], n.values[idx + 1])] + inter_kvs(
                d1,
                n.keys.skip(idx + 2),
                n.values.skip(idx + 2),
                n.children.skip(idx + 2),
                hc,
            ));
            assert(midr + seq![(n.keys[idx + 1], n.values[idx + 1])] + inter_kvs(
                d1,
                n.keys.skip(idx + 2),
                n.values.skip(idx + 2),
                n.children.skip(idx + 2),
                hc,
            ) =~= midr + tail);
        } else {
            assert(tk.len() == 0);
            assert(tc.len() == 1);
            assert(inter_kvs(d1, tk, tv, tc, hc) == midr);
            assert(tail =~= Seq::<(Seq<u8>, Seq<u8>)>::empty());
            assert(midr + tail =~= midr);
        }
    }
    assert(node_kvs_in(d1, n, h) =~= lp + mseg + tail);
    lemma_node_split(d2, n2, h, idx);
    assert(left_part(d2, n2, hc, idx) == lp) by {
        assert(n2.keys.take(idx) =~= n.keys.take(idx));
        assert(n2.values.take(idx) =~= n.values.take(idx));
        assert(n2.children.take(idx) =~= n.children.take(idx));
        assert forall|j: int| 0 <= j < n.children.take(idx).len() implies subtree_wf(
            d1,
            #[trigger] n.children.take(idx)[j],
            hc,
        ) by {
            assert(n.children.take(idx)[j] == n.children[j]);
        }
        lemma_inter_frame(d1, d2, n.keys.take(idx), n.values.take(idx), n.children.take(idx), hc);
    }
    assert(right_part(d2, n2, hc, idx) == tail) by {
        if idx < n2.keys.len() {
            assert(n2.keys[idx] == n.keys[idx + 1]);
            assert(n2.values[idx] == n.values[idx + 1]);
            assert(n2.keys.skip(idx + 1) =~= n.keys.skip(idx + 2));
            assert(n2.values.skip(idx + 1) =~= n.values.skip(idx + 2));
            assert(n2.children.skip(idx + 1) =~= n.children.skip(idx + 2));
            assert forall|j: int| 0 <= j < n.children.skip(idx + 2).len() implies subtree_wf(
                d1,
                #[trigger] n.children.skip(idx + 2)[j],
                hc,
            ) by {
                assert(n.children.skip(idx + 2)[j] == n.children[idx + 2 + j]);
            }
            lemma_inter_frame(
                d1,
                d2,
                n.keys.skip(idx + 2),
                n.values.skip(idx + 2),
                n.children.skip(idx + 2),
                hc,
            );
            assert(right_part(d2, n2, hc, idx) =~= tail);
        } else {
            assert(right_part(d2, n2, hc, idx) =~= Seq::<(Seq<u8>, Seq<u8>)>::empty());
            assert(tail =~= Seq::<(Seq<u8>, Seq<u8>)>::empty());
        }
    }
    assert(node_kvs_in(d2, n2, h) =~= lp + mseg + tail);
}

/// A borrow from the left sibling: the sibling's last entry moves up to
/// the parent, the old separator moves down onto the front of the child.
/// The node stays well-formed and its contents are unchanged.
#[verifier::rlimit(100)]
#[verifier::spinoff_prover]
pub proof fn lemma_rotate_prev(
    d0: Seq<u8>,
    d2: Seq<u8>,
    n: NodeV,
    n2: NodeV,
    h: nat,
    idx: int,
    soff: u64,
    coff: u64,
    sib: NodeV,
    child: NodeV,
    sc: u64,
)
    requires
        node_wf_in(d0, n, h),
        !n.leaf,
        1 <= idx < n.children.len(),
        agree_past_header(d2, d0),
        spec_node_at(d0, n.children[idx - 1]) == Some(sib),
        spec_node_at(d0, n.children[idx]) == Some(child),
        sib.keys.len() >= 1,
        child.keys.len() < MAX_KEYS,
        !sib.leaf ==> sc == sib.children.last(),
        spec_node_at(d2, soff) == Some(popped_last(sib)),
        spec_node_at(d2, coff) == Some(
            pushed_front(child, n.keys[idx - 1], n.values[idx - 1], sc),
        ),
        popped_last(sib).keys.len() >= MIN_KEYS,
        pushed_front(child, n.keys[idx - 1], n.values[idx - 1], sc).keys.len() >= MIN_KEYS,
        n2.keys == n.keys.update(idx - 1, sib.keys.last()),
        n2.values == n.values.update(idx - 1, sib.values.last()),
        n2.children == n.children.update(idx - 1, soff).update(idx, coff),
        n2.leaf == false,
    ensures
        node_wf_in(d2, n2, h),
        node_kvs_in(d2, n2, h) == node_kvs_in(d0, n, h),
{
    let hc = (h - 1) as nat;
    let sk = sib.keys.last();
    let sv = sib.values.last();
    let pk = n.keys[idx - 1];
    let pv = n.values[idx - 1];
    assert(subtree_wf(d0, n.children[idx - 1], hc));
    assert(subtree_wf(d0, n.children[idx], hc));
    assert(node_wf_in(d0, sib, hc));
    assert(node_wf_in(d0, child, hc));
    assert(sib.leaf == child.leaf);
    let skvs = node_kvs_in(d0, sib, hc);
    let ckvs = node_kvs_in(d0, child, hc);
    assert(skvs == subtree_kvs(d0, n.children[idx - 1], hc));
    assert(ckvs == subtree_kvs(d0, n.children[idx], hc));
    assert(all_below(skvs, pk));
    assert(all_above(ckvs, pk));
    assert(idx - 1 > 0 ==> all_above(skvs, n.keys[idx - 2]));
    lemma_node_kvs_sorted(d0, sib, hc);
    lemma_pop_last(d0, sib, hc);
    let p = popped_last(sib);
    let pkvs = node_kvs_in(d0, p, hc);
    let sckvs: Seq<(Seq<u8>, Seq<u8>)> = if sib.leaf {
        Seq::empty()
    } else {
        subtree_kvs(d0, sc, (hc - 1) as nat)
    };
    assert(skvs == pkvs + seq![(sk, sv)] + sckvs) by {
        if sib.leaf {
            assert(skvs == pkvs + seq![(sk, sv)]);
            assert(pkvs + seq![(sk, sv)] + sckvs =~= pkvs + seq![(sk, sv)]);
        } else {
            assert(sc == sib.children.last());
        }
    }
    lemma_concat3_bounds(pkvs, (sk, sv), sckvs);
    assert(all_below(pkvs, sk));
    assert(all_above(sckvs, sk));
    // the sibling's last entry lies below the old separator
    assert(lex_lt(sk, pk)) by {
        assert(skvs[pkvs.len() as int] == (sk, sv));
        assert(lex_lt(skvs[pkvs.len() as int].0, pk));
    }
    // the pushed-down entry and the moved child stay within the child
    if !child.leaf {
        assert(all_below(sckvs, pk)) by {
            crate::model::lemma_bounds_split(pkvs + seq![(sk, sv)], sckvs, pk);
        }
        assert(subtree_wf(d0, sc, (hc - 1) as nat));
        assert(min_filled(d0, sc));
    }
    lemma_push_front(d0, child, hc, pk, pv, sc);
    let g = pushed_front(child, pk, pv, sc);
    let gkvs = node_kvs_in(d0, g, hc);
    assert(gkvs == sckvs + seq![(pk, pv)] + ckvs) by {
        if child.leaf {
            assert(gkvs == seq![(pk, pv)] + ckvs);
            assert(sckvs + seq![(pk, pv)] + ckvs =~= seq![(pk, pv)] + ckvs);
        }
    }
    // both rewritten nodes stand well-formed on the grown image
    crate::model::lemma_node_in_frame(d0, d2, p, hc);
    crate::model::lemma_node_in_frame(d0, d2, g, hc);
    assert(subtree_wf(d2, soff, hc));
    assert(subtree_wf(d2, coff, hc));
    assert(subtree_kvs(d2, soff, hc) == pkvs);
    assert(subtree_kvs(d2, coff, hc) == gkvs);
    assert(min_filled(d2, soff));
    assert(min_filled(d2, coff));
    // bounds for the parent's new separator
    assert(all_above(gkvs, sk)) by {
        assert forall|j: int| 0 <= j < gkvs.len() implies lex_lt(sk, #[trigger] gkvs[j].0) by {
            if j < sckvs.len() {
                assert(gkvs[j] == sckvs[j]);
            } else if j == sckvs.len() {
                assert(gkvs[j] == (pk, pv));
            } else {
                assert(gkvs[j] == ckvs[j - sckvs.len() - 1]);
                assert(lex_lt(pk, ckvs[j - sckvs.len() - 1].0));
                lemma_lex_transitive(sk, pk, ckvs[j - sckvs.len() - 1].0);
            }
        }
    }
    assert(idx - 1 > 0 ==> lex_lt(n.keys[idx - 2], sk) && all_above(pkvs, n.keys[idx - 2])) by {
        if idx - 1 > 0 {
            assert(skvs[pkvs.len() as int] == (sk, sv));
            assert(lex_lt(n.keys[idx - 2], skvs[pkvs.len() as int].0));
            crate::model::lemma_bounds_split(pkvs, seq![(sk, sv)] + sckvs, n.keys[idx - 2]);
            assert(pkvs + (seq![(sk, sv)] + sckvs) =~= skvs);
        }
    }
    assert(idx < n.keys.len() ==> lex_lt(sk, n.keys[idx]) && all_below(gkvs, n.keys[idx])) by {
        if idx < n.keys.len() {
            lemma_lex_transitive(sk, pk, n.keys[idx]);
            assert(all_below(ckvs, n.keys[idx]));
            assert forall|j: int| 0 <= j < gkvs.len() implies lex_lt(
                #[trigger] gkvs[j].0,
                n.keys[idx],
            ) by {
                if j < sckvs.len() {
                    assert(gkvs[j] == sckvs[j]);
                    assert(lex_lt(sckvs[j].0, pk));
                    lemma_lex_transitive(sckvs[j].0, pk, n.keys[idx]);
                } else if j == sckvs.len() {
                    assert(gkvs[j] == (pk, pv));
                } else {
                    assert(gkvs[j] == ckvs[j - sckvs.len() - 1]);
                }
            }
        }
    }
    assert(pair_fits(sk, sv)) by {
        assert(pair_fits(sib.keys[sib.keys.len() - 1], sib.values[sib.keys.len() - 1]));
    }
    lemma_segment_update_wf(d0, d2, n, n2, h, idx - 1, soff, coff, sk, sv);
    lemma_segment_update_kvs(d0, d2, n, n2, h, idx - 1, soff, coff, sk, sv);
    // the stretch holds the same entries before and after the rotation
    assert(pkvs + seq![(sk, sv)] + gkvs =~= skvs + seq![(pk, pv)] + ckvs);
    assert(node_kvs_in(d2, n2, h) == node_kvs_in(d0, n, h));
}

/// A borrow from the right sibling: the sibling's first entry moves up to
/// the parent, the old separator moves down onto the back of the child.
/// The node stays well-formed and its contents are unchanged.
#[verifier::rlimit(100)]
#[verifier::spinoff_prover]
pub proof fn lemma_rotate_next(
    d0: Seq<u8>,
    d2: Seq<u8>,
    n: NodeV,
    n2: NodeV,
    h: nat,
    idx: int,
    coff: u64,
    soff: u64,
    child: NodeV,
    sib: NodeV,
    sc: u64,
)
    requires
        node_wf_in(d0, n, h),
        !n.leaf,
        0 <= idx < n.keys.len(),
        agree_past_header(d2, d0),
        spec_node_at(d0, n.children[idx]) == Some(child),
        spec_node_at(d0, n.children[idx + 1]) == Some(sib),
        sib.keys.len() >= 1,
        child.keys.len() < MAX_KEYS,
        !sib.leaf ==> sc == sib.children.first(),
        spec_node_at(d2, coff) == Some(pushed_back(child, n.keys[idx], n.values[idx], sc)),
        spec_node_at(d2, soff) == Some(popped_first(sib)),
        popped_first(sib).keys.len() >= MIN_KEYS,
        pushed_back(child, n.keys[idx], n.values[idx], sc).keys.len() >= MIN_KEYS,
        n2.keys == n.keys.update(idx, sib.keys.first()),
        n2.values == n.values.update(idx, sib.values.first()),
        n2.children == n.children.update(idx, coff).update(idx + 1, soff),
        n2.leaf == false,
    ensures
        node_wf_in(d2, n2, h),
        node_kvs_in(d2, n2, h) == node_kvs_in(d0, n, h),
{
    let hc = (h - 1) as nat;
    let sk = sib.keys.first();
    let sv = sib.values.first();
    let pk = n.keys[idx];
    let pv = n.values[idx];
    assert(subtree_wf(d0, n.children[idx], hc));
    assert(subtree_wf(d0, n.children[idx + 1], hc));
    assert(node_wf_in(d0, child, hc));
    assert(node_wf_in(d0, sib, hc));
    assert(sib.leaf == child.leaf);
    let skvs = node_kvs_in(d0, sib, hc);
    let ckvs = node_kvs_in(d0, child, hc);
    assert(ckvs == subtree_kvs(d0, n.children[idx], hc));
    assert(skvs == subtree_kvs(d0, n.children[idx + 1], hc));
    assert(all_below(ckvs, pk));
    assert(all_above(skvs, pk));
    lemma_node_kvs_sorted(d0, sib, hc);
    lemma_pop_first(d0, sib, hc);
    let p = popped_first(sib);
    let pkvs = node_kvs_in(d0, p, hc);
    let sckvs: Seq<(Seq<u8>, Seq<u8>)> = if sib.leaf {
        Seq::empty()
    } else {
        subtree_kvs(d0, sc, (hc - 1) as nat)
    };
    assert(skvs == sckvs + seq![(sk, sv)] + pkvs) by {
        if sib.leaf {
            assert(skvs == seq![(sk, sv)] + pkvs);
            assert(sckvs + seq![(sk, sv)] + pkvs =~= seq![(sk, sv)] + pkvs);
        } else {
            assert(sc == sib.children.first());
        }
    }
    lemma_concat3_bounds(sckvs, (sk, sv), pkvs);
    assert(all_below(sckvs, sk));
    assert(all_above(pkvs, sk));
    // the sibling's first entry lies above the old separator
    assert(lex_lt(pk, sk)) by {
        assert(skvs[sckvs.len() as int] == (sk, sv));
        assert(lex_lt(pk, skvs[sckvs.len() as int].0));
    }
    if !child.leaf {
        assert(all_above(sckvs, pk)) by {
            assert(sckvs + (seq![(sk, sv)] + pkvs) =~= skvs);
            crate::model::lemma_bounds_split(sckvs, seq![(sk, sv)] + pkvs, pk);
        }
        assert(subtree_wf(d0, sc, (hc - 1) as nat));
        assert(min_filled(d0, sc));
    }
    lemma_push_back(d0, child, hc, pk, pv, sc);
    let g = pushed_back(child, pk, pv, sc);
    let gkvs = node_kvs_in(d0, g, hc);
    assert(gkvs == ckvs + seq![(pk, pv)] + sckvs) by {
        if child.leaf {
            assert(gkvs == ckvs + seq![(pk, pv)]);
            assert(ckvs + seq![(pk, pv)] + sckvs =~= ckvs + seq![(pk, pv)]);
        }
    }
    crate::model::lemma_node_in_frame(d0, d2, p, hc);
    crate::model::lemma_node_in_frame(d0, d2, g, hc);
    assert(subtree_wf(d2, soff, hc));
    assert(subtree_wf(d2, coff, hc));
    assert(subtree_kvs(d2, soff, hc) == pkvs);
    assert(subtree_kvs(d2, coff, hc) == gkvs);
    assert(min_filled(d2, soff));
    assert(min_filled(d2, coff));
    assert(all_below(gkvs, sk)) by {
        assert forall|j: int| 0 <= j < gkvs.len() implies lex_lt(#[trigger] gkvs[j].0, sk) by {
            if j < ckvs.len() {
                assert(gkvs[j] == ckvs[j]);
                assert(lex_lt(ckvs[j].0, pk));
                lemma_lex_transitive(ckvs[j].0, pk, sk);
            } else if j == ckvs.len() {
                assert(gkvs[j] == (pk, pv));
            } else {
                assert(gkvs[j] == sckvs[j - ckvs.len() - 1]);
            }
        }
    }
    assert(idx > 0 ==> lex_lt(n.keys[idx - 1], sk) && all_above(gkvs, n.keys[idx - 1])) by {
        if idx > 0 {
            lemma_lex_transitive(n.keys[idx - 1], pk, sk);
            assert(all_above(ckvs, n.keys[idx - 1]));
            assert forall|j: int| 0 <= j < gkvs.len() implies lex_lt(
                n.keys[idx - 1],
                #[trigger] gkvs[j].0,
            ) by {
                if j < ckvs.len() {
                    assert(gkvs[j] == ckvs[j]);
                } else if j == ckvs.len() {
                    assert(gkvs[j] == (pk, pv));
                } else {
                    assert(gkvs[j] == sckvs[j - ckvs.len() - 1]);
                    assert(lex_lt(pk, sckvs[j - ckvs.len() - 1].0));
                    lemma_lex_transitive(n.keys[idx - 1], pk, sckvs[j - ckvs.len() - 1].0);
                }
            }
        }
    }
    assert(idx + 1 < n.keys.len() ==> lex_lt(sk, n.keys[idx + 1]) && all_below(
        pkvs,
        n.keys[idx + 1],
    )) by {
        if idx + 1 < n.keys.len() {
            assert(skvs[sckvs.len() as int] == (sk, sv));
            assert(lex_lt(skvs[sckvs.len() as int].0, n.keys[idx + 1]));
            assert((sckvs + seq![(sk, sv)]) + pkvs =~= skvs);
            crate::model::lemma_bounds_split(sckvs + seq![(sk, sv)], pkvs, n.keys[idx + 1]);
        }
    }
    assert(pair_fits(sk, sv)) by {
        assert(pair_fits(sib.keys[0], sib.values[0]));
    }
    lemma_segment_update_wf(d0, d2, n, n2, h, idx, coff, soff, sk, sv);
    lemma_segment_update_kvs(d0, d2, n, n2, h, idx, coff, soff, sk, sv);
    assert(gkvs + seq![(sk, sv)] + pkvs =~= ckvs + seq![(pk, pv)] + skvs);
    assert(node_kvs_in(d2, n2, h) == node_kvs_in(d0, n, h));
}

/// Replacing the separator at `idx` by its in-order predecessor, with the
/// predecessor removed from the left child: the separator's key leaves the
/// node's contents and nothing else changes.
#[verifier::rlimit(100)]
#[verifier::spinoff_prover]
pub proof fn lemma_replace_pred(
    d0: Seq<u8>,
    d2: Seq<u8>,
    n: NodeV,
    n2: NodeV,
    h: nat,
    idx: int,
    coff: u64,
    pk: Seq<u8>,
    pv: Seq<u8>,
)
    requires
        node_wf_in(d0, n, h),
        !n.leaf,
        0 <= idx < n.keys.len(),
        agree_past_header(d2, d0),
        subtree_kvs(d0, n.children[idx], (h - 1) as nat).len() >= 1,
        (pk, pv) == subtree_kvs(d0, n.children[idx], (h - 1) as nat).last(),
        subtree_wf(d2, coff, (h - 1) as nat),
        min_filled(d2, coff),
        subtree_kvs(d2, coff, (h - 1) as nat) == subtree_kvs(
            d0,
            n.children[idx],
            (h - 1) as nat,
        ).drop_last(),
        pair_fits(pk, pv),
        n2.keys == n.keys.update(idx, pk),
        n2.values == n.values.update(idx, pv),
        n2.children == n.children.update(idx, coff),
        n2.leaf == false,
    ensures
        node_wf_in(d2, n2, h),
        node_kvs_in(d2, n2, h) == kvs_remove(node_kvs_in(d0, n, h), n.keys[idx]),
{
    let hc = (h - 1) as nat;
    let mid = subtree_kvs(d0, n.children[idx], hc);
    let midr = subtree_kvs(d0, n.children[idx + 1], hc);
    let k = n.keys[idx];
    lemma_subtree_sorted(d0, n.children[idx], hc);
    assert(all_below(mid, k));
    assert(lex_lt(pk, k)) by {
        assert(mid.last() == (pk, pv));
        assert(lex_lt(mid[mid.len() - 1].0, k));
    }
    assert(all_below(mid.drop_last(), pk)) by {
        assert forall|j: int| 0 <= j < mid.drop_last().len() implies lex_lt(
            #[trigger] (mid.drop_last()[j]).0,
            pk,
        ) by {
            assert(mid.drop_last()[j] == mid[j]);
            assert(lex_lt(mid[j].0, mid[mid.len() - 1].0));
        }
    }
    assert(all_above(midr, pk)) by {
        assert(all_above(midr, k));
        lemma_all_above_weaken(midr, pk, k);
    }
    assert(idx > 0 ==> lex_lt(n.keys[idx - 1], pk) && all_above(mid.drop_last(), n.keys[idx - 1]))
        by {
        if idx > 0 {
            assert(all_above(mid, n.keys[idx - 1]));
            assert(lex_lt(n.keys[idx - 1], mid[mid.len() - 1].0));
            assert forall|j: int| 0 <= j < mid.drop_last().len() implies lex_lt(
                n.keys[idx - 1],
                #[trigger] (mid.drop_last()[j]).0,
            ) by {
                assert(mid.drop_last()[j] == mid[j]);
            }
        }
    }
    assert(idx + 1 < n.keys.len() ==> lex_lt(pk, n.keys[idx + 1]) && all_below(
        midr,
        n.keys[idx + 1],
    )) by {
        if idx + 1 < n.keys.len() {
            assert(lex_lt(k, n.keys[idx + 1]));
            lemma_lex_transitive(pk, k, n.keys[idx + 1]);
        }
    }
    // the right child is untouched: it keeps its place on the new image
    let boff = n.children[idx + 1];
    assert(subtree_wf(d0, boff, hc));
    lemma_subtree_frame(d0, d2, boff, hc);
    lemma_node_at_frame(d0, d2, boff);
    assert(n2.children =~= n.children.update(idx, coff).update(idx + 1, boff));
    lemma_segment_update_wf(d0, d2, n, n2, h, idx, coff, boff, pk, pv);
    lemma_segment_update_kvs(d0, d2, n, n2, h, idx, coff, boff, pk, pv);
    let lp = left_part(d0, n, hc, idx);
    let tail = right_part(d0, n, hc, idx + 1);
    // the new stretch is the old one with the separator's key gone
    assert(mid.drop_last() + seq![(pk, pv)] =~= mid);
    assert(node_kvs_in(d2, n2, h) =~= lp + mid + (midr + tail));
    // removing the old separator from the old contents leaves just that
    lemma_rank_bounds_at(d0, n, h, idx);
    lemma_below_ne(lp, k);
    lemma_below_ne(mid, k);
    assert(node_kvs_in(d0, n, h) =~= (lp + mid) + (seq![(k, n.values[idx])] + (midr + tail)));
    assert forall|j: int| 0 <= j < (lp + mid).len() implies #[trigger] ((lp + mid)[j]).0 != k by {
        if j < lp.len() {
            assert((lp + mid)[j] == lp[j]);
        } else {
            assert((lp + mid)[j] == mid[j - lp.len()]);
        }
    }
    lemma_remove_concat_left(lp + mid, seq![(k, n.values[idx])] + (midr + tail), k);
    assert((seq![(k, n.values[idx])] + (midr + tail))[0].0 == k);
    assert(kvs_remove(seq![(k, n.values[idx])] + (midr + tail), k) == (seq![(k, n.values[idx])] + (
    midr + tail)).drop_first());
    assert((seq![(k, n.values[idx])] + (midr + tail)).drop_first() =~= midr + tail);
    assert(kvs_remove(node_kvs_in(d0, n, h), k) =~= lp + mid + (midr + tail));
}

/// The rank of a node's own key `idx` is `idx`, and everything left of
/// child `idx` lies below it.
pub proof fn lemma_rank_bounds_at(d0: Seq<u8>, n: NodeV, h: nat, idx: int)
    requires
        node_wf_in(d0, n, h),
        !n.leaf,
        0 <= idx < n.keys.len(),
    ensures
        all_below(left_part(d0, n, (h - 1) as nat, idx), n.keys[idx]),
        node_kvs_in(d0, n, h) == (left_part(d0, n, (h - 1) as nat, idx) + subtree_kvs(
            d0,
            n.children[idx],
            (h - 1) as nat,
        )) + (seq![(n.keys[idx], n.values[idx])] + (subtree_kvs(
            d0,
            n.children[idx + 1],
            (h - 1) as nat,
        ) + right_part(d0, n, (h - 1) as nat, idx + 1))),
{
    let hc = (h - 1) as nat;
    assert(is_rank(n, n.keys[idx], idx)) by {
        assert forall|j: int| 0 <= j < idx implies lex_lt(#[trigger] n.keys[j], n.keys[idx]) by {}
        lemma_lex_trichotomy(n.keys[idx], n.keys[idx]);
    }
    lemma_rank_bounds(d0, n, h, n.keys[idx], idx);
    lemma_node_split(d0, n, h, idx);
    let lp = left_part(d0, n, hc, idx);
    let mid = subtree_kvs(d0, n.children[idx], hc);
    let midr = subtree_kvs(d0, n.children[idx + 1], hc);
    let tail = right_part(d0, n, hc, idx + 1);
    assert(right_part(d0, n, hc, idx) == seq![(n.keys[idx], n.values[idx])] + (midr + tail)) by {
        let tk = n.keys.skip(idx + 1);
        let tv = n.values.skip(idx + 1);
        let tc = n.children.skip(idx + 1);
        assert(tc[0] == n.children[idx + 1]);
        if idx + 1 < n.keys.len() {
            assert(tk[0] == n.keys[idx + 1]);
            assert(tv[0] == n.values[idx + 1]);
            assert(tk.drop_first() =~= n.keys.skip(idx + 2));
            assert(tv.drop_first() =~= n.values.skip(idx + 2));
            assert(tc.drop_first() =~= n.children.skip(idx + 2));
            assert(inter_kvs(d0, tk, tv, tc, hc) == midr + seq![
                (n.keys[idx + 1], n.values[idx + 1])] + inter_kvs(
                d0,
                n.keys.skip(idx + 2),
                n.values.skip(idx + 2),
                n.children.skip(idx + 2),
                hc,
            ));
            assert(midr + seq![(n.keys[idx + 1], n.values[idx + 1])] + inter_kvs(
                d0,
                n.keys.skip(idx + 2),
                n.values.skip(idx + 2),
                n.children.skip(idx + 2),
                hc,
            ) =~= midr + tail);
        } else {
            assert(tk.len() == 0);
            assert(tc.len() == 1);
            assert(inter_kvs(d0, tk, tv, tc, hc) == midr);
            assert(tail =~= Seq::<(Seq<u8>, Seq<u8>)>::empty());
            assert(midr + tail =~= midr);
        }
    }
    assert(node_kvs_in(d0, n, h) =~= (lp + mid) + (seq![(n.keys[idx], n.values[idx])] + (midr
        + tail)));
}

/// Replacing the separator at `idx` by its in-order successor, with the
/// successor removed from the right child: the separator's key leaves the
/// node's contents and nothing else changes.
#[verifier::rlimit(100)]
#[verifier::spinoff_prover]
pub proof fn lemma_replace_succ(
    d0: Seq<u8>,
    d2: Seq<u8>,
    n: NodeV,
    n2: NodeV,
    h: nat,
    idx: int,
    boff: u64,
    sk: Seq<u8>,
    sv: Seq<u8>,
)
    requires
        node_wf_in(d0, n, h),
        !n.leaf,
        0 <= idx < n.keys.len(),
        agree_past_header(d2, d0),
        subtree_kvs(d0, n.children[idx + 1], (h - 1) as nat).len() >= 1,
        (sk, sv) == subtree_kvs(d0, n.children[idx + 1], (h - 1) as nat).first(),
        subtree_wf(d2, boff, (h - 1) as nat),
        min_filled(d2, boff),
        subtree_kvs(d2, boff, (h - 1) as nat) == subtree_kvs(
            d0,
            n.children[idx + 1],
            (h - 1) as nat,
        ).drop_first(),
        pair_fits(sk, sv),
        n2.keys == n.keys.update(idx, sk),
        n2.values == n.values.update(idx, sv),
        n2.children == n.children.update(idx + 1, boff),
        n2.leaf == false,
    ensures
        node_wf_in(d2, n2, h),
        node_kvs_in(d2, n2, h) == kvs_remove(node_kvs_in(d0, n, h), n.keys[idx]),
{
    let hc = (h - 1) as nat;
    let mid = subtree_kvs(d0, n.children[idx], hc);
    let midr = subtree_kvs(d0, n.children[idx + 1], hc);
    let k = n.keys[idx];
    lemma_subtree_sorted(d0, n.children[idx + 1], hc);
    assert(all_above(midr, k));
    assert(lex_lt(k, sk)) by {
        assert(midr.first() == (sk, sv));
        assert(lex_lt(k, midr[0].0));
    }
    assert(all_above(midr.drop_first(), sk)) by {
        assert forall|j: int| 0 <= j < midr.drop_first().len() implies lex_lt(
            sk,
            #[trigger] (midr.drop_first()[j]).0,
        ) by {
            assert(midr.drop_first()[j] == midr[j + 1]);
            assert(lex_lt(midr[0].0, midr[j + 1].0));
        }
    }
    assert(all_below(mid, sk)) by {
        assert(all_below(mid, k));
        lemma_all_below_weaken(mid, k, sk);
    }
    assert(idx > 0 ==> lex_lt(n.keys[idx - 1], sk) && all_above(mid, n.keys[idx - 1])) by {
        if idx > 0 {
            assert(lex_lt(n.keys[idx - 1], k));
            lemma_lex_transitive(n.keys[idx - 1], k, sk);
        }
    }
    assert(idx + 1 < n.keys.len() ==> lex_lt(sk, n.keys[idx + 1]) && all_below(
        midr.drop_first(),
        n.keys[idx + 1],
    )) by {
        if idx + 1 < n.keys.len() {
            assert(midr.first() == (sk, sv));
            assert(lex_lt(midr[0].0, n.keys[idx + 1]));
            assert forall|j: int| 0 <= j < midr.drop_first().len() implies lex_lt(
                #[trigger] (midr.drop_first()[j]).0,
                n.keys[idx + 1],
            ) by {
                assert(midr.drop_first()[j] == midr[j + 1]);
                assert(lex_lt(midr[j + 1].0, n.keys[idx + 1]));
            }
        }
    }
    // the left child is untouched: it keeps its place on the new image
    let aoff = n.children[idx];
    assert(subtree_wf(d0, aoff, hc));
    lemma_subtree_frame(d0, d2, aoff, hc);
    lemma_node_at_frame(d0, d2, aoff);
    assert(n2.children =~= n.children.update(idx, aoff).update(idx + 1, boff));
    lemma_segment_update_wf(d0, d2, n, n2, h, idx, aoff, boff, sk, sv);
    lemma_segment_update_kvs(d0, d2, n, n2, h, idx, aoff, boff, sk, sv);
    let lp = left_part(d0, n, hc, idx);
    let tail = right_part(d0, n, hc, idx + 1);
    assert(seq![(sk, sv)] + midr.drop_first() =~= midr);
    assert(node_kvs_in(d2, n2, h) =~= lp + mid + (midr + tail));
    lemma_rank_bounds_at(d0, n, h, idx);
    lemma_below_ne(lp, k);
    lemma_below_ne(mid, k);
    assert(node_kvs_in(d0, n, h) =~= (lp + mid) + (seq![(k, n.values[idx])] + (midr + tail)));
    assert forall|j: int| 0 <= j < (lp + mid).len() implies #[trigger] ((lp + mid)[j]).0 != k by {
        if j < lp.len() {
            assert((lp + mid)[j] == lp[j]);
        } else {
            assert((lp + mid)[j] == mid[j - lp.len()]);
        }
    }
    lemma_remove_concat_left(lp + mid, seq![(k, n.values[idx])] + (midr + tail), k);
    assert((seq![(k, n.values[idx])] + (midr + tail))[0].0 == k);
    assert(kvs_remove(seq![(k, n.values[idx])] + (midr + tail), k) == (seq![(k, n.values[idx])] + (
    midr + tail)).drop_first());
    assert((seq![(k, n.values[idx])] + (midr + tail)).drop_first() =~= midr + tail);
    assert(kvs_remove(node_kvs_in(d0, n, h), k) =~= lp + mid + (midr + tail));
}

/// Removing the entry at `i` of a leaf: the leaf stays well-formed and its
/// contents lose exactly that key.
pub proof fn lemma_leaf_remove(n: NodeV, n2: NodeV, disk: Seq<u8>, k: Seq<u8>, i: int)
    requires
        node_wf_in(disk, n, 0),
        n.leaf,
        0 <= i < n.keys.len(),
        n.keys[i] == k,
        n2.keys == n.keys.remove(i),
        n2.values == n.values.remove(i),
        n2.children == n.children,
        n2.leaf,
    ensures
        node_wf_in(disk, n2, 0),
        node_kvs_in(disk, n2, 0) == kvs_remove(node_kvs_in(disk, n, 0), k),
{
    assert forall|a: int, b: int| 0 <= a < b < n2.keys.len() implies lex_lt(
        n2.keys[a],
        n2.keys[b],
    ) by {
        let a1 = if a < i { a } else { a + 1 };
        let b1 = if b < i { b } else { b + 1 };
        assert(lex_lt(n.keys[a1], n.keys[b1]));
    }
    assert forall|a: int| 0 <= a < n2.keys.len() implies pair_fits(
        #[trigger] n2.keys[a],
        n2.values[a],
    ) by {
        let a1 = if a < i { a } else { a + 1 };
        assert(pair_fits(n.keys[a1], n.values[a1]));
    }
    assert(node_wf_in(disk, n2, 0));
    let z = zip_kvs(n.keys, n.values);
    let a = z.take(i);
    let b = z.skip(i + 1);
    assert(z =~= a + (seq![(k, n.values[i])] + b));
    assert forall|j: int| 0 <= j < a.len() implies #[trigger] (a[j]).0 != k by {
        assert(a[j] == z[j]);
        assert(z[j].0 == n.keys[j]);
        assert(lex_lt(n.keys[j], n.keys[i]));
        lemma_lex_trichotomy(n.keys[j], k);
    }
    lemma_remove_concat_left(a, seq![(k, n.values[i])] + b, k);
    assert((seq![(k, n.values[i])] + b)[0].0 == k);
    assert(kvs_remove(seq![(k, n.values[i])] + b, k) == (seq![(k, n.values[i])] + b).drop_first());
    assert((seq![(k, n.values[i])] + b).drop_first() =~= b);
    assert(zip_kvs(n2.keys, n2.values) =~= a + b) by {
        assert forall|j: int| 0 <= j < n2.keys.len() implies zip_kvs(n2.keys, n2.values)[j] == (a
            + b)[j] by {
            if j < i {
                assert(a[j] == z[j]);
            } else {
                assert(b[j - i] == z[j + 1]);
            }
        }
    }
    assert(kvs_remove(node_kvs_in(disk, n, 0), k) =~= node_kvs_in(disk, n2, 0));
}

} // verus!
