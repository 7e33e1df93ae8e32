//! The mathematical model of the tree.
//!
//! The contents of a subtree is its in-order sequence of key-value pairs;
//! well-formedness ties the structural invariants of the tree together:
//! every page decodes, counts agree, non-root nodes are at least half full,
//! all leaves sit at the same depth (the height `h`), and keys are strictly
//! ascending across the whole subtree.

use vstd::prelude::*;

use crate::bytes::{lex_lt, lemma_lex_transitive, lemma_lex_trichotomy};
use crate::codec::spec_node_at;
use crate::node::{NodeV, node_shape, node_fits, MIN_KEYS};

verus! {

/// The node's own entries, in order.
pub open spec fn zip_kvs(keys: Seq<Seq<u8>>, values: Seq<Seq<u8>>) -> Seq<(Seq<u8>, Seq<u8>)> {
    Seq::new(keys.len(), |i: int| (keys[i], values[i]))
}

/// The in-order contents of an internal node: the first child's subtree,
/// then the first entry, then the rest, interleaved.
pub open spec fn inter_kvs(
    disk: Seq<u8>,
    keys: Seq<Seq<u8>>,
    values: Seq<Seq<u8>>,
    children: Seq<u64>,
    hc: nat,
) -> Seq<(Seq<u8>, Seq<u8>)>
    decreases hc, children.len() + 2,
{
    if children.len() == 0 {
        Seq::empty()
    } else if keys.len() == 0 || values.len() == 0 {
        subtree_kvs(disk, children[0], hc)
    } else {
        subtree_kvs(disk, children[0], hc) + seq![(keys[0], values[0])] + inter_kvs(
            disk,
            keys.drop_first(),
            values.drop_first(),
            children.drop_first(),
            hc,
        )
    }
}

/// The in-order contents of a node held in memory whose children, if any,
/// stand on disk with height `h - 1`.
pub open spec fn node_kvs_in(disk: Seq<u8>, n: NodeV, h: nat) -> Seq<(Seq<u8>, Seq<u8>)>
    decreases h, 0nat,
{
    if n.leaf || h == 0 {
        zip_kvs(n.keys, n.values)
    } else {
        inter_kvs(disk, n.keys, n.values, n.children, (h - 1) as nat)
    }
}

/// The in-order contents of the subtree whose root page is at `off`.
pub open spec fn subtree_kvs(disk: Seq<u8>, off: u64, h: nat) -> Seq<(Seq<u8>, Seq<u8>)>
    decreases h, 1nat,
{
    match spec_node_at(disk, off) {
        None => Seq::empty(),
        Some(n) => node_kvs_in(disk, n, h),
    }
}

/// The keys of the node are strictly ascending.
pub open spec fn node_sorted(n: NodeV) -> bool {
    forall|i: int, j: int| 0 <= i < j < n.keys.len() ==> lex_lt(n.keys[i], n.keys[j])
}

/// Every key of `kvs` is below `hi`.
pub open spec fn all_below(kvs: Seq<(Seq<u8>, Seq<u8>)>, hi: Seq<u8>) -> bool {
    forall|i: int| 0 <= i < kvs.len() ==> lex_lt(#[trigger] kvs[i].0, hi)
}

/// Every key of `kvs` is above `lo`.
pub open spec fn all_above(kvs: Seq<(Seq<u8>, Seq<u8>)>, lo: Seq<u8>) -> bool {
    forall|i: int| 0 <= i < kvs.len() ==> lex_lt(lo, #[trigger] kvs[i].0)
}

/// The keys of `kvs` are strictly ascending.
pub open spec fn kvs_sorted(kvs: Seq<(Seq<u8>, Seq<u8>)>) -> bool {
    forall|i: int, j: int| 0 <= i < j < kvs.len() ==> lex_lt(kvs[i].0, kvs[j].0)
}

/// The node at `off` holds at least the minimum key count of a non-root
/// node.
pub open spec fn min_filled(disk: Seq<u8>, off: u64) -> bool {
    spec_node_at(disk, off) matches Some(c) && c.keys.len() >= MIN_KEYS
}

/// Well-formedness of a node held in memory above the disk `disk`: counts
/// agree, entries fit a page, its keys ascend, leaves sit exactly at height
/// `0`, and each child subtree is well-formed, at least half full, and
/// strictly separated by the node's keys.
pub open spec fn node_wf_in(disk: Seq<u8>, n: NodeV, h: nat) -> bool
    decreases h, 0nat,
{
    &&& node_shape(n)
    &&& node_fits(n)
    &&& node_sorted(n)
    &&& (n.leaf <==> h == 0)
    &&& (!n.leaf ==> {
        &&& (forall|i: int| 0 <= i < n.children.len() ==> subtree_wf(
            disk,
            #[trigger] n.children[i],
            (h - 1) as nat,
        ))
        &&& (forall|i: int| 0 <= i < n.children.len() ==> min_filled(
            disk,
            #[trigger] n.children[i],
        ))
        &&& (forall|i: int| 0 <= i < n.keys.len() ==> all_below(
            subtree_kvs(disk, n.children[i], (h - 1) as nat),
            #[trigger] n.keys[i],
        ))
        &&& (forall|i: int| 0 <= i < n.keys.len() ==> all_above(
            subtree_kvs(disk, n.children[i + 1], (h - 1) as nat),
            #[trigger] n.keys[i],
        ))
    })
}

/// Well-formedness of the subtree whose root page is at `off`.
pub open spec fn subtree_wf(disk: Seq<u8>, off: u64, h: nat) -> bool
    decreases h, 1nat,
{
    match spec_node_at(disk, off) {
        None => false,
        Some(n) => node_wf_in(disk, n, h),
    }
}

/// `long` begins with `short`: nothing below `short.len()` has changed.
pub open spec fn extends(long: Seq<u8>, short: Seq<u8>) -> bool {
    long.len() >= short.len() && long.subrange(0, short.len() as int) == short
}

/// The two images agree on every byte past the header.
pub open spec fn agree_past_header(d2: Seq<u8>, d1: Seq<u8>) -> bool {
    &&& d2.len() >= d1.len()
    &&& d1.len() >= crate::pager::HEADER_SIZE
    &&& forall|i: int| crate::pager::HEADER_SIZE <= i < d1.len() ==> d2[i] == d1[i]
}

/// Growing the image, or rewriting the header alone, disturbs no stored
/// node.
pub proof fn lemma_node_at_frame(d1: Seq<u8>, d2: Seq<u8>, off: u64)
    requires
        agree_past_header(d2, d1),
        off + crate::pager::PAGE_SIZE <= d1.len(),
        off >= crate::pager::HEADER_SIZE,
    ensures
        spec_node_at(d2, off) == spec_node_at(d1, off),
{
    assert(crate::codec::spec_page_at(d2, off) =~= crate::codec::spec_page_at(d1, off));
}

/// Growing the image, or rewriting the header alone, preserves every
/// well-formed subtree and its contents.
pub proof fn lemma_subtree_frame(d1: Seq<u8>, d2: Seq<u8>, off: u64, h: nat)
    requires
        agree_past_header(d2, d1),
        subtree_wf(d1, off, h),
    ensures
        subtree_wf(d2, off, h),
        subtree_kvs(d2, off, h) == subtree_kvs(d1, off, h),
    decreases h, 1nat,
{
    let n = spec_node_at(d1, off).unwrap();
    lemma_node_at_frame(d1, d2, off);
    lemma_node_in_frame(d1, d2, n, h);
}

/// As `lemma_subtree_frame`, for a node held in memory.
pub proof fn lemma_node_in_frame(d1: Seq<u8>, d2: Seq<u8>, n: NodeV, h: nat)
    requires
        agree_past_header(d2, d1),
        node_wf_in(d1, n, h),
    ensures
        node_wf_in(d2, n, h),
        node_kvs_in(d2, n, h) == node_kvs_in(d1, n, h),
    decreases h, 0nat,
{
    if n.leaf {
    } else {
        assert forall|i: int| 0 <= i < n.children.len() implies subtree_wf(
            d2,
            #[trigger] n.children[i],
            (h - 1) as nat,
        ) && subtree_kvs(d2, n.children[i], (h - 1) as nat) == subtree_kvs(
            d1,
            n.children[i],
            (h - 1) as nat,
        ) by {
            lemma_subtree_frame(d1, d2, n.children[i], (h - 1) as nat);
        }
        assert forall|i: int| 0 <= i < n.children.len() implies min_filled(
            d2,
            #[trigger] n.children[i],
        ) by {
            lemma_node_at_frame(d1, d2, n.children[i]);
        }
        lemma_inter_frame(d1, d2, n.keys, n.values, n.children, (h - 1) as nat);
    }
}

/// As `lemma_subtree_frame`, for an interleaving of children and entries.
pub proof fn lemma_inter_frame(
    d1: Seq<u8>,
    d2: Seq<u8>,
    keys: Seq<Seq<u8>>,
    values: Seq<Seq<u8>>,
    children: Seq<u64>,
    hc: nat,
)
    requires
        agree_past_header(d2, d1),
        forall|i: int| 0 <= i < children.len() ==> subtree_wf(d1, #[trigger] children[i], hc),
    ensures
        inter_kvs(d2, keys, values, children, hc) == inter_kvs(d1, keys, values, children, hc),
    decreases hc, children.len() + 2,
{
    if children.len() == 0 {
    } else {
        lemma_subtree_frame(d1, d2, children[0], hc);
        if keys.len() == 0 || values.len() == 0 {
        } else {
            assert forall|i: int| 0 <= i < children.drop_first().len() implies subtree_wf(
                d1,
                #[trigger] children.drop_first()[i],
                hc,
            ) by {
                assert(subtree_wf(d1, children[i + 1], hc));
            }
            lemma_inter_frame(
                d1,
                d2,
                keys.drop_first(),
                values.drop_first(),
                children.drop_first(),
                hc,
            );
        }
    }
}

/// A bound below a larger bound still bounds from above.
pub proof fn lemma_all_below_weaken(s: Seq<(Seq<u8>, Seq<u8>)>, a: Seq<u8>, b: Seq<u8>)
    requires
        all_below(s, a),
        lex_lt(a, b),
    ensures
        all_below(s, b),
{
    assert forall|i: int| 0 <= i < s.len() implies lex_lt(#[trigger] s[i].0, b) by {
        lemma_lex_transitive(s[i].0, a, b);
    }
}

/// A bound above a smaller bound still bounds from below.
pub proof fn lemma_all_above_weaken(s: Seq<(Seq<u8>, Seq<u8>)>, a: Seq<u8>, b: Seq<u8>)
    requires
        all_above(s, b),
        lex_lt(a, b),
    ensures
        all_above(s, a),
{
    assert forall|i: int| 0 <= i < s.len() implies lex_lt(a, #[trigger] s[i].0) by {
        lemma_lex_transitive(a, b, s[i].0);
    }
}

/// No key bounded strictly from above equals the bound.
pub proof fn lemma_below_ne(s: Seq<(Seq<u8>, Seq<u8>)>, k: Seq<u8>)
    requires
        all_below(s, k),
    ensures
        forall|i: int| 0 <= i < s.len() ==> #[trigger] s[i].0 != k,
{
    assert forall|i: int| 0 <= i < s.len() implies #[trigger] s[i].0 != k by {
        lemma_lex_trichotomy(s[i].0, k);
    }
}

/// No key bounded strictly from below equals the bound.
pub proof fn lemma_above_ne(s: Seq<(Seq<u8>, Seq<u8>)>, k: Seq<u8>)
    requires
        all_above(s, k),
    ensures
        forall|i: int| 0 <= i < s.len() ==> #[trigger] s[i].0 != k,
{
    assert forall|i: int| 0 <= i < s.len() implies #[trigger] s[i].0 != k by {
        lemma_lex_trichotomy(s[i].0, k);
    }
}

/// Upper bounds join over concatenation.
pub proof fn lemma_all_below_concat(a: Seq<(Seq<u8>, Seq<u8>)>, b: Seq<(Seq<u8>, Seq<u8>)>, x: Seq<u8>)
    requires
        all_below(a, x),
        all_below(b, x),
    ensures
        all_below(a + b, x),
{
    assert forall|i: int| 0 <= i < (a + b).len() implies lex_lt(#[trigger] (a + b)[i].0, x) by {
        if i < a.len() {
            assert((a + b)[i] == a[i]);
        } else {
            assert((a + b)[i] == b[i - a.len()]);
        }
    }
}

/// Lower bounds join over concatenation.
pub proof fn lemma_all_above_concat(a: Seq<(Seq<u8>, Seq<u8>)>, b: Seq<(Seq<u8>, Seq<u8>)>, x: Seq<u8>)
    requires
        all_above(a, x),
        all_above(b, x),
    ensures
        all_above(a + b, x),
{
    assert forall|i: int| 0 <= i < (a + b).len() implies lex_lt(x, #[trigger] (a + b)[i].0) by {
        if i < a.len() {
            assert((a + b)[i] == a[i]);
        } else {
            assert((a + b)[i] == b[i - a.len()]);
        }
    }
}

/// Sorted parts separated by one entry concatenate to a sorted whole.
pub proof fn lemma_sorted_concat3(
    a: Seq<(Seq<u8>, Seq<u8>)>,
    p: (Seq<u8>, Seq<u8>),
    b: Seq<(Seq<u8>, Seq<u8>)>,
)
    requires
        kvs_sorted(a),
        kvs_sorted(b),
        all_below(a, p.0),
        all_above(b, p.0),
    ensures
        kvs_sorted(a + seq![p] + b),
{
    let r = a + seq![p] + b;
    assert forall|i: int, j: int| 0 <= i < j < r.len() implies lex_lt(r[i].0, r[j].0) by {
        let la = a.len() as int;
        if i < la {
            assert(r[i] == a[i]);
        } else if i == la {
            assert(r[i] == p);
        } else {
            assert(r[i] == b[i - la - 1]);
        }
        if j < la {
            assert(r[j] == a[j]);
        } else if j == la {
            assert(r[j] == p);
        } else {
            assert(r[j] == b[j - la - 1]);
        }
        if i < la && j < la {
        } else if i < la && j == la {
        } else if i < la && j > la {
            lemma_lex_transitive(a[i].0, p.0, b[j - la - 1].0);
        } else if i == la && j > la {
        } else {
        }
    }
}

/// Every key of the interleaving is below `x` when all parts are.
pub proof fn lemma_inter_below(
    disk: Seq<u8>,
    keys: Seq<Seq<u8>>,
    values: Seq<Seq<u8>>,
    children: Seq<u64>,
    hc: nat,
    x: Seq<u8>,
)
    requires
        values.len() == keys.len(),
        forall|j: int| 0 <= j < keys.len() ==> lex_lt(#[trigger] keys[j], x),
        forall|j: int| 0 <= j < children.len() ==> all_below(
            subtree_kvs(disk, #[trigger] children[j], hc),
            x,
        ),
    ensures
        all_below(inter_kvs(disk, keys, values, children, hc), x),
    decreases children.len(),
{
    if children.len() == 0 {
    } else if keys.len() == 0 {
        assert(all_below(subtree_kvs(disk, children[0], hc), x));
    } else {
        assert forall|j: int| 0 <= j < children.drop_first().len() implies all_below(
            subtree_kvs(disk, #[trigger] children.drop_first()[j], hc),
            x,
        ) by {
            assert(all_below(subtree_kvs(disk, children[j + 1], hc), x));
        }
        assert forall|j: int| 0 <= j < keys.drop_first().len() implies lex_lt(
            #[trigger] keys.drop_first()[j],
            x,
        ) by {
            assert(lex_lt(keys[j + 1], x));
        }
        lemma_inter_below(disk, keys.drop_first(), values.drop_first(), children.drop_first(), hc, x);
        assert(all_below(seq![(keys[0], values[0])], x)) by {
            assert(seq![(keys[0], values[0])][0].0 == keys[0]);
        }
        lemma_all_below_concat(subtree_kvs(disk, children[0], hc), seq![(keys[0], values[0])], x);
        lemma_all_below_concat(
            subtree_kvs(disk, children[0], hc) + seq![(keys[0], values[0])],
            inter_kvs(disk, keys.drop_first(), values.drop_first(), children.drop_first(), hc),
            x,
        );
    }
}

/// Every key of the interleaving is above `x` when all parts are.
pub proof fn lemma_inter_above(
    disk: Seq<u8>,
    keys: Seq<Seq<u8>>,
    values: Seq<Seq<u8>>,
    children: Seq<u64>,
    hc: nat,
    x: Seq<u8>,
)
    requires
        values.len() == keys.len(),
        forall|j: int| 0 <= j < keys.len() ==> lex_lt(x, #[trigger] keys[j]),
        forall|j: int| 0 <= j < children.len() ==> all_above(
            subtree_kvs(disk, #[trigger] children[j], hc),
            x,
        ),
    ensures
        all_above(inter_kvs(disk, keys, values, children, hc), x),
    decreases children.len(),
{
    if children.len() == 0 {
    } else if keys.len() == 0 {
        assert(all_above(subtree_kvs(disk, children[0], hc), x));
    } else {
        assert forall|j: int| 0 <= j < children.drop_first().len() implies all_above(
            subtree_kvs(disk, #[trigger] children.drop_first()[j], hc),
            x,
        ) by {
            assert(all_above(subtree_kvs(disk, children[j + 1], hc), x));
        }
        assert forall|j: int| 0 <= j < keys.drop_first().len() implies lex_lt(
            x,
            #[trigger] keys.drop_first()[j],
        ) by {
            assert(lex_lt(x, keys[j + 1]));
        }
        lemma_inter_above(disk, keys.drop_first(), values.drop_first(), children.drop_first(), hc, x);
        assert(all_above(seq![(keys[0], values[0])], x)) by {
            assert(seq![(keys[0], values[0])][0].0 == keys[0]);
        }
        lemma_all_above_concat(subtree_kvs(disk, children[0], hc), seq![(keys[0], values[0])], x);
        lemma_all_above_concat(
            subtree_kvs(disk, children[0], hc) + seq![(keys[0], values[0])],
            inter_kvs(disk, keys.drop_first(), values.drop_first(), children.drop_first(), hc),
            x,
        );
    }
}

/// The interleaving splits at child `i`: everything left of child `i`,
/// then everything from child `i` on.
pub proof fn lemma_inter_split(
    disk: Seq<u8>,
    keys: Seq<Seq<u8>>,
    values: Seq<Seq<u8>>,
    children: Seq<u64>,
    hc: nat,
    i: int,
)
    requires
        values.len() == keys.len(),
        children.len() == keys.len() + 1,
        0 <= i <= keys.len(),
    ensures
        inter_kvs(disk, keys, values, children, hc) == inter_kvs(
            disk,
            keys.take(i),
            values.take(i),
            children.take(i),
            hc,
        ) + inter_kvs(disk, keys.skip(i), values.skip(i), children.skip(i), hc),
    decreases i,
{
    if i == 0 {
        assert(children.take(0).len() == 0);
        assert(inter_kvs(disk, keys.take(0), values.take(0), children.take(0), hc)
            =~= Seq::<(Seq<u8>, Seq<u8>)>::empty());
        assert(keys.skip(0) =~= keys);
        assert(values.skip(0) =~= values);
        assert(children.skip(0) =~= children);
        assert(Seq::<(Seq<u8>, Seq<u8>)>::empty() + inter_kvs(disk, keys, values, children, hc)
            =~= inter_kvs(disk, keys, values, children, hc));
    } else {
        let kd = keys.drop_first();
        let vd = values.drop_first();
        let cd = children.drop_first();
        lemma_inter_split(disk, kd, vd, cd, hc, i - 1);
        let c0 = subtree_kvs(disk, children[0], hc);
        let p0 = seq![(keys[0], values[0])];
        assert(inter_kvs(disk, keys, values, children, hc) == c0 + p0 + inter_kvs(
            disk,
            kd,
            vd,
            cd,
            hc,
        ));
        assert(kd.take(i - 1) =~= keys.take(i).drop_first());
        assert(vd.take(i - 1) =~= values.take(i).drop_first());
        assert(cd.take(i - 1) =~= children.take(i).drop_first());
        assert(kd.skip(i - 1) =~= keys.skip(i));
        assert(vd.skip(i - 1) =~= values.skip(i));
        assert(cd.skip(i - 1) =~= children.skip(i));
        assert(keys.take(i).len() == i);
        assert(values.take(i).len() == i);
        assert(children.take(i).len() == i);
        assert(keys.take(i)[0] == keys[0]);
        assert(values.take(i)[0] == values[0]);
        assert(children.take(i)[0] == children[0]);
        assert(inter_kvs(disk, keys.take(i), values.take(i), children.take(i), hc) == c0 + p0
            + inter_kvs(disk, keys.take(i).drop_first(), values.take(i).drop_first(),
            children.take(i).drop_first(), hc));
        assert(c0 + p0 + (inter_kvs(disk, keys.take(i).drop_first(), values.take(i).drop_first(),
            children.take(i).drop_first(), hc) + inter_kvs(disk, keys.skip(i), values.skip(i),
            children.skip(i), hc)) =~= (c0 + p0 + inter_kvs(disk, keys.take(i).drop_first(),
            values.take(i).drop_first(), children.take(i).drop_first(), hc)) + inter_kvs(
            disk,
            keys.skip(i),
            values.skip(i),
            children.skip(i),
            hc,
        ));
    }
}

/// The keys of a well-formed node's contents ascend strictly; the contents
/// stay within any bounds that hold of the node's keys and children.
pub proof fn lemma_node_kvs_sorted(disk: Seq<u8>, n: NodeV, h: nat)
    requires
        node_wf_in(disk, n, h),
    ensures
        kvs_sorted(node_kvs_in(disk, n, h)),
    decreases h, 1nat,
{
    if n.leaf || h == 0 {
        let z = zip_kvs(n.keys, n.values);
        assert forall|i: int, j: int| 0 <= i < j < z.len() implies lex_lt(z[i].0, z[j].0) by {
            assert(lex_lt(n.keys[i], n.keys[j]));
        }
    } else {
        lemma_inter_sorted(disk, n.keys, n.values, n.children, (h - 1) as nat);
    }
}

/// As `lemma_node_kvs_sorted`, for the interleaving of a well-formed
/// internal node.
pub proof fn lemma_inter_sorted(
    disk: Seq<u8>,
    keys: Seq<Seq<u8>>,
    values: Seq<Seq<u8>>,
    children: Seq<u64>,
    hc: nat,
)
    requires
        values.len() == keys.len(),
        children.len() == keys.len() + 1,
        forall|i: int, j: int| 0 <= i < j < keys.len() ==> lex_lt(keys[i], keys[j]),
        forall|i: int| 0 <= i < children.len() ==> subtree_wf(disk, #[trigger] children[i], hc),
        forall|i: int| 0 <= i < keys.len() ==> all_below(
            subtree_kvs(disk, children[i], hc),
            #[trigger] keys[i],
        ),
        forall|i: int| 0 <= i < keys.len() ==> all_above(
            subtree_kvs(disk, children[i + 1], hc),
            #[trigger] keys[i],
        ),
    ensures
        kvs_sorted(inter_kvs(disk, keys, values, children, hc)),
    decreases hc, children.len() + 3,
{
    if keys.len() == 0 {
        lemma_subtree_sorted(disk, children[0], hc);
    } else {
        let kd = keys.drop_first();
        let vd = values.drop_first();
        let cd = children.drop_first();
        assert forall|i: int, j: int| 0 <= i < j < kd.len() implies lex_lt(kd[i], kd[j]) by {
            assert(lex_lt(keys[i + 1], keys[j + 1]));
        }
        assert forall|i: int| 0 <= i < cd.len() implies subtree_wf(
            disk,
            #[trigger] cd[i],
            hc,
        ) by {
            assert(subtree_wf(disk, children[i + 1], hc));
        }
        assert forall|i: int| 0 <= i < kd.len() implies all_below(
            subtree_kvs(disk, cd[i], hc),
            #[trigger] kd[i],
        ) by {
            assert(all_below(subtree_kvs(disk, children[i + 1], hc), keys[i + 1]));
        }
        assert forall|i: int| 0 <= i < kd.len() implies all_above(
            subtree_kvs(disk, cd[i + 1], hc),
            #[trigger] kd[i],
        ) by {
            assert(all_above(subtree_kvs(disk, children[i + 2], hc), keys[i + 1]));
        }
        lemma_inter_sorted(disk, kd, vd, cd, hc);
        lemma_subtree_sorted(disk, children[0], hc);
        let rest = inter_kvs(disk, kd, vd, cd, hc);
        assert(all_above(rest, keys[0])) by {
            assert forall|j: int| 0 <= j < kd.len() implies lex_lt(keys[0], #[trigger] kd[j]) by {
                assert(lex_lt(keys[0], keys[j + 1]));
            }
            assert forall|j: int| 0 <= j < cd.len() implies all_above(
                subtree_kvs(disk, #[trigger] cd[j], hc),
                keys[0],
            ) by {
                assert(all_above(subtree_kvs(disk, children[j + 1], hc), keys[j]));
                if j > 0 {
                    assert(lex_lt(keys[0], keys[j]));
                    lemma_all_above_weaken(subtree_kvs(disk, children[j + 1], hc), keys[0], keys[j]);
                }
            }
            lemma_inter_above(disk, kd, vd, cd, hc, keys[0]);
        }
        lemma_sorted_concat3(subtree_kvs(disk, children[0], hc), (keys[0], values[0]), rest);
        assert(subtree_kvs(disk, children[0], hc) + seq![(keys[0], values[0])] + rest
            =~= inter_kvs(disk, keys, values, children, hc));
    }
}

/// The keys of a well-formed subtree's contents ascend strictly.
pub proof fn lemma_subtree_sorted(disk: Seq<u8>, off: u64, h: nat)
    requires
        subtree_wf(disk, off, h),
    ensures
        kvs_sorted(subtree_kvs(disk, off, h)),
    decreases h, 2nat,
{
    let n = spec_node_at(disk, off).unwrap();
    lemma_node_kvs_sorted(disk, n, h);
}

/// Bounds restrict to the parts of a concatenation.
pub proof fn lemma_bounds_split(a: Seq<(Seq<u8>, Seq<u8>)>, b: Seq<(Seq<u8>, Seq<u8>)>, x: Seq<u8>)
    ensures
        all_below(a + b, x) ==> all_below(a, x) && all_below(b, x),
        all_above(a + b, x) ==> all_above(a, x) && all_above(b, x),
{
    if all_below(a + b, x) {
        assert forall|i: int| 0 <= i < a.len() implies lex_lt(#[trigger] a[i].0, x) by {
            assert((a + b)[i] == a[i]);
        }
        assert forall|i: int| 0 <= i < b.len() implies lex_lt(#[trigger] b[i].0, x) by {
            assert((a + b)[a.len() + i] == b[i]);
        }
    }
    if all_above(a + b, x) {
        assert forall|i: int| 0 <= i < a.len() implies lex_lt(x, #[trigger] a[i].0) by {
            assert((a + b)[i] == a[i]);
        }
        assert forall|i: int| 0 <= i < b.len() implies lex_lt(x, #[trigger] b[i].0) by {
            assert((a + b)[a.len() + i] == b[i]);
        }
    }
}

/// A sorted three-part concatenation bounds its parts by the separator.
pub proof fn lemma_concat3_bounds(
    a: Seq<(Seq<u8>, Seq<u8>)>,
    p: (Seq<u8>, Seq<u8>),
    b: Seq<(Seq<u8>, Seq<u8>)>,
)
    requires
        kvs_sorted(a + seq![p] + b),
    ensures
        kvs_sorted(a),
        kvs_sorted(b),
        all_below(a, p.0),
        all_above(b, p.0),
{
    let r = a + seq![p] + b;
    let la = a.len() as int;
    assert(r[la] == p);
    assert forall|i: int, j: int| 0 <= i < j < a.len() implies lex_lt(a[i].0, a[j].0) by {
        assert(r[i] == a[i] && r[j] == a[j]);
        assert(lex_lt(r[i].0, r[j].0));
    }
    assert forall|i: int, j: int| 0 <= i < j < b.len() implies lex_lt(b[i].0, b[j].0) by {
        assert(r[la + 1 + i] == b[i] && r[la + 1 + j] == b[j]);
        assert(lex_lt(r[la + 1 + i].0, r[la + 1 + j].0));
    }
    assert forall|i: int| 0 <= i < a.len() implies lex_lt(#[trigger] a[i].0, p.0) by {
        assert(r[i] == a[i]);
        assert(lex_lt(r[i].0, r[la].0));
    }
    assert forall|i: int| 0 <= i < b.len() implies lex_lt(p.0, #[trigger] b[i].0) by {
        assert(r[la + 1 + i] == b[i]);
        assert(lex_lt(r[la].0, r[la + 1 + i].0));
    }
}

/// When keys and children run equally long, the last entry peels off the
/// end of the interleaving.
pub proof fn lemma_inter_last_key(
    disk: Seq<u8>,
    keys: Seq<Seq<u8>>,
    values: Seq<Seq<u8>>,
    children: Seq<u64>,
    hc: nat,
)
    requires
        keys.len() >= 1,
        values.len() == keys.len(),
        children.len() == keys.len(),
    ensures
        inter_kvs(disk, keys, values, children, hc) == inter_kvs(
            disk,
            keys.take(keys.len() - 1),
            values.take(keys.len() - 1),
            children,
            hc,
        ) + seq![(keys.last(), values.last())],
    decreases keys.len(),
{
    let m = keys.len() - 1;
    if m == 0 {
        assert(inter_kvs(disk, keys, values, children, hc) == subtree_kvs(disk, children[0], hc)
            + seq![(keys[0], values[0])] + inter_kvs(
            disk,
            keys.drop_first(),
            values.drop_first(),
            children.drop_first(),
            hc,
        ));
        assert(children.drop_first().len() == 0);
        assert(inter_kvs(disk, keys.drop_first(), values.drop_first(), children.drop_first(), hc)
            =~= Seq::<(Seq<u8>, Seq<u8>)>::empty());
        assert(keys.take(0).len() == 0);
        assert(inter_kvs(disk, keys.take(0), values.take(0), children, hc) == subtree_kvs(
            disk,
            children[0],
            hc,
        ));
        assert(subtree_kvs(disk, children[0], hc) + seq![(keys[0], values[0])] + Seq::<
            (Seq<u8>, Seq<u8>),
        >::empty() =~= subtree_kvs(disk, children[0], hc) + seq![(keys.last(), values.last())]);
    } else {
        lemma_inter_last_key(
            disk,
            keys.drop_first(),
            values.drop_first(),
            children.drop_first(),
            hc,
        );
        assert(keys.drop_first().take(m - 1) =~= keys.take(m).drop_first());
        assert(values.drop_first().take(m - 1) =~= values.take(m).drop_first());
        assert(keys.drop_first().last() == keys.last());
        assert(values.drop_first().last() == values.last());
        assert(keys.take(m)[0] == keys[0]);
        assert(values.take(m)[0] == values[0]);
        assert(keys.take(m).len() == m);
        let c0 = subtree_kvs(disk, children[0], hc);
        let p0 = seq![(keys[0], values[0])];
        assert(inter_kvs(disk, keys, values, children, hc) == c0 + p0 + inter_kvs(
            disk,
            keys.drop_first(),
            values.drop_first(),
            children.drop_first(),
            hc,
        ));
        assert(inter_kvs(disk, keys.take(m), values.take(m), children, hc) == c0 + p0 + inter_kvs(
            disk,
            keys.take(m).drop_first(),
            values.take(m).drop_first(),
            children.drop_first(),
            hc,
        ));
        assert(c0 + p0 + (inter_kvs(disk, keys.take(m).drop_first(), values.take(m).drop_first(),
            children.drop_first(), hc) + seq![(keys.last(), values.last())]) =~= (c0 + p0
            + inter_kvs(disk, keys.take(m).drop_first(), values.take(m).drop_first(),
            children.drop_first(), hc)) + seq![(keys.last(), values.last())]);
    }
}

/// Extension of the image is transitive.
pub proof fn lemma_extends_trans(d3: Seq<u8>, d2: Seq<u8>, d1: Seq<u8>)
    requires
        extends(d3, d2),
        extends(d2, d1),
    ensures
        extends(d3, d1),
{
    assert(d3.subrange(0, d1.len() as int) =~= d1) by {
        assert forall|i: int| 0 <= i < d1.len() implies d3[i] == d1[i] by {
            assert(d3.subrange(0, d2.len() as int)[i] == d2[i]);
            assert(d2.subrange(0, d1.len() as int)[i] == d1[i]);
        }
    }
}

/// An extended image agrees with the old one past (and within) the header.
pub proof fn lemma_extends_agree(d2: Seq<u8>, d1: Seq<u8>)
    requires
        extends(d2, d1),
        d1.len() >= crate::pager::HEADER_SIZE,
    ensures
        agree_past_header(d2, d1),
        crate::pager::spec_root_pointer(d2) == crate::pager::spec_root_pointer(d1),
{
    assert forall|i: int| 0 <= i < d1.len() implies d2[i] == d1[i] by {
        assert(d2.subrange(0, d1.len() as int)[i] == d1[i]);
    }
    assert(d2.subrange(0, crate::pager::HEADER_SIZE as int) =~= d1.subrange(
        0,
        crate::pager::HEADER_SIZE as int,
    ));
}

/// A header rewrite alone leaves every byte past the header in place.
pub proof fn lemma_header_write_agree(d2: Seq<u8>, d1: Seq<u8>)
    requires
        d2.len() == d1.len(),
        d1.len() >= crate::pager::HEADER_SIZE,
        d2.skip(crate::pager::HEADER_SIZE as int) == d1.skip(crate::pager::HEADER_SIZE as int),
    ensures
        agree_past_header(d2, d1),
{
    assert forall|i: int| crate::pager::HEADER_SIZE <= i < d1.len() implies d2[i] == d1[i] by {
        assert(d2.skip(crate::pager::HEADER_SIZE as int)[i - crate::pager::HEADER_SIZE]
            == d1.skip(crate::pager::HEADER_SIZE as int)[i - crate::pager::HEADER_SIZE]);
    }
}

/// Keys ascending pair by pair ascend everywhere.
pub proof fn lemma_sorted_from_adjacent(keys: Seq<Seq<u8>>, i: int, j: int)
    requires
        forall|m: int| 0 <= m < keys.len() - 1 ==> lex_lt(#[trigger] keys[m], keys[m + 1]),
        0 <= i < j < keys.len(),
    ensures
        lex_lt(keys[i], keys[j]),
    decreases j - i,
{
    if j == i + 1 {
        assert(lex_lt(keys[i], keys[i + 1]));
    } else {
        lemma_sorted_from_adjacent(keys, i, j - 1);
        assert(lex_lt(keys[j - 1], keys[j]));
        lemma_lex_transitive(keys[i], keys[j - 1], keys[j]);
    }
}

} // verus!
