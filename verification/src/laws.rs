//! Laws of the store.
//!
//! Each proof function here states a property of the store that holds for
//! all inputs, over the same spec functions the operations' contracts use:
//! the contents of a tree (`BTree::as_kvs`, a sequence of key-value pairs
//! in key order) and the operations on contents (`kvs_insert`,
//! `kvs_remove`, `kvs_lookup`).

use vstd::prelude::*;

use crate::btree::{BTree, lemma_height_unique};
use crate::codec::spec_node_at;
use crate::kvs::{
    kvs_insert, kvs_lookup, kvs_remove, lemma_insert_len, lemma_insert_sorted,
    lemma_lookup_insert, lemma_lookup_insert_other, lemma_lookup_remove,
    lemma_lookup_remove_other, lemma_remove_absent, lemma_remove_sorted,
};
use crate::model::{kvs_sorted, min_filled, subtree_wf, lemma_subtree_sorted};
use crate::node::node_shape;
use crate::node::{MAX_KEYS, MIN_KEYS};
use crate::pager::{spec_root_pointer, HEADER_SIZE};

verus! {

/// After inserting `(k, v)`, looking `k` up finds `v`.
pub proof fn law_insert_then_search(kvs: Seq<(Seq<u8>, Seq<u8>)>, k: Seq<u8>, v: Seq<u8>)
    ensures
        kvs_lookup(kvs_insert(kvs, k, v), k) == Some(v),
{
    lemma_lookup_insert(kvs, k, v);
}

/// Inserting `(k, v)` and then `(k, v2)` overwrites: looking `k` up finds
/// `v2`, and no other key's association has changed.
pub proof fn law_overwrite_then_search(
    kvs: Seq<(Seq<u8>, Seq<u8>)>,
    k: Seq<u8>,
    v: Seq<u8>,
    v2: Seq<u8>,
    q: Seq<u8>,
)
    ensures
        kvs_lookup(kvs_insert(kvs_insert(kvs, k, v), k, v2), k) == Some(v2),
        q != k ==> kvs_lookup(kvs_insert(kvs_insert(kvs, k, v), k, v2), q) == kvs_lookup(kvs, q),
{
    lemma_lookup_insert(kvs_insert(kvs, k, v), k, v2);
    if q != k {
        lemma_lookup_insert_other(kvs, k, v, q);
        lemma_lookup_insert_other(kvs_insert(kvs, k, v), k, v2, q);
    }
}

/// After inserting `(k, v)` and then removing `k`, looking `k` up finds
/// nothing, and no other key's association has changed.
pub proof fn law_insert_then_delete(
    kvs: Seq<(Seq<u8>, Seq<u8>)>,
    k: Seq<u8>,
    v: Seq<u8>,
    q: Seq<u8>,
)
    requires
        kvs_sorted(kvs),
    ensures
        kvs_lookup(kvs_remove(kvs_insert(kvs, k, v), k), k) == None::<Seq<u8>>,
        q != k ==> kvs_lookup(kvs_remove(kvs_insert(kvs, k, v), k), q) == kvs_lookup(kvs, q),
{
    lemma_insert_sorted(kvs, k, v);
    lemma_lookup_remove(kvs_insert(kvs, k, v), k);
    if q != k {
        lemma_lookup_insert_other(kvs, k, v, q);
        lemma_lookup_remove_other(kvs_insert(kvs, k, v), k, q);
    }
}

/// Removing an absent key changes nothing at all.
pub proof fn law_delete_absent(kvs: Seq<(Seq<u8>, Seq<u8>)>, k: Seq<u8>)
    requires
        kvs_lookup(kvs, k) is None,
    ensures
        kvs_remove(kvs, k) == kvs,
{
    lemma_remove_absent(kvs, k);
}

/// Reopening the file finds the same store: any tree handle read back
/// from the header of a committed image is the committed tree, with the
/// same contents and so the same answer to every search.
pub proof fn law_reopen(t: BTree, t2: BTree, disk: Seq<u8>)
    requires
        t.wf(disk),
        t.committed(disk),
        t2.committed(disk),
        t2.root matches Some(r) ==> r != 0,
    ensures
        t2 == t,
        t2.wf(disk),
        t2.as_kvs(disk) == t.as_kvs(disk),
{
    match t.root {
        None => {
            assert(spec_root_pointer(disk) == 0);
            match t2.root {
                None => {},
                Some(r2) => {
                    assert(r2 == 0);
                    assert(false);
                },
            }
        },
        Some(r) => {
            let h = choose|hh: nat|
                subtree_wf(disk, r, hh) && spec_node_at(disk, r).unwrap().keys.len() >= 1;
            assert(subtree_wf(disk, r, h));
            assert(r >= HEADER_SIZE);
            assert(spec_root_pointer(disk) == r);
            match t2.root {
                None => {
                    assert(spec_root_pointer(disk) == 0);
                    assert(false);
                },
                Some(r2) => {
                    assert(r2 == r);
                },
            }
        },
    }
}

/// The keys of a tree, collected in order, ascend strictly; their number
/// is the number of live entries.
pub proof fn law_inorder_sorted(t: BTree, disk: Seq<u8>)
    requires
        t.wf(disk),
    ensures
        kvs_sorted(t.as_kvs(disk)),
{
    match t.root {
        None => {},
        Some(r) => {
            let h = choose|hh: nat|
                subtree_wf(disk, r, hh) && spec_node_at(disk, r).unwrap().keys.len() >= 1;
            assert(subtree_wf(disk, r, h));
            lemma_height_unique(disk, r, BTree::height_at(disk, r), h);
            lemma_subtree_sorted(disk, r, h);
        },
    }
}

/// A nonzero header pointer of a committed, well-formed store decodes to
/// a valid node: the root.
pub proof fn law_root_decodes(t: BTree, disk: Seq<u8>)
    requires
        t.wf(disk),
        t.committed(disk),
        spec_root_pointer(disk) != 0,
    ensures
        spec_node_at(disk, spec_root_pointer(disk)) is Some,
        node_shape(spec_node_at(disk, spec_root_pointer(disk)).unwrap()),
        spec_node_at(disk, spec_root_pointer(disk)).unwrap().keys.len() >= 1,
{
    match t.root {
        None => {
            assert(false);
        },
        Some(r) => {
            let h = choose|hh: nat|
                subtree_wf(disk, r, hh) && spec_node_at(disk, r).unwrap().keys.len() >= 1;
            assert(subtree_wf(disk, r, h));
        },
    }
}

/// In a well-formed subtree, an internal node with `k` keys has exactly
/// `k + 1` children, and every non-root node is at least half full and at
/// most full.
pub proof fn law_node_counts(disk: Seq<u8>, off: u64, h: nat, i: int)
    requires
        subtree_wf(disk, off, h),
        0 <= i < spec_node_at(disk, off).unwrap().children.len(),
        !spec_node_at(disk, off).unwrap().leaf,
    ensures
        spec_node_at(disk, off).unwrap().children.len() == spec_node_at(
            disk,
            off,
        ).unwrap().keys.len() + 1,
        subtree_wf(disk, spec_node_at(disk, off).unwrap().children[i], (h - 1) as nat),
        min_filled(disk, spec_node_at(disk, off).unwrap().children[i]),
        MIN_KEYS <= spec_node_at(
            disk,
            spec_node_at(disk, off).unwrap().children[i],
        ).unwrap().keys.len() <= MAX_KEYS,
{
    let n = spec_node_at(disk, off).unwrap();
    assert(subtree_wf(disk, n.children[i], (h - 1) as nat));
    assert(min_filled(disk, n.children[i]));
    let c = spec_node_at(disk, n.children[i]).unwrap();
    assert(node_shape(c));
}

/// Contents stay in strictly ascending key order under both operations.
pub proof fn law_operations_keep_order(kvs: Seq<(Seq<u8>, Seq<u8>)>, k: Seq<u8>, v: Seq<u8>)
    requires
        kvs_sorted(kvs),
    ensures
        kvs_sorted(kvs_insert(kvs, k, v)),
        kvs_sorted(kvs_remove(kvs, k)),
{
    lemma_insert_sorted(kvs, k, v);
    lemma_remove_sorted(kvs, k);
}

/// An insert grows the contents by one entry on a fresh key and keeps the
/// count on an overwrite; a removal shrinks it by at most one.
pub proof fn law_operation_counts(kvs: Seq<(Seq<u8>, Seq<u8>)>, k: Seq<u8>, v: Seq<u8>)
    requires
        kvs_sorted(kvs),
    ensures
        kvs_lookup(kvs, k) is Some ==> kvs_insert(kvs, k, v).len() == kvs.len(),
        kvs_lookup(kvs, k) is None ==> kvs_insert(kvs, k, v).len() == kvs.len() + 1,
        kvs.len() - 1 <= kvs_remove(kvs, k).len() <= kvs.len(),
{
    lemma_insert_len(kvs, k, v);
    lemma_remove_sorted(kvs, k);
}

/// A tree whose root page is a leaf holds exactly that leaf's entries:
/// the root node's keys are the whole contents, in order.
pub proof fn law_leaf_root_contents(t: BTree, disk: Seq<u8>)
    requires
        t.wf(disk),
        t.root is Some,
        spec_node_at(disk, t.root.unwrap()) matches Some(n) && n.leaf,
    ensures
        t.as_kvs(disk) == crate::model::zip_kvs(
            spec_node_at(disk, t.root.unwrap()).unwrap().keys,
            spec_node_at(disk, t.root.unwrap()).unwrap().values,
        ),
{
    let r = t.root.unwrap();
    let h = choose|hh: nat| subtree_wf(disk, r, hh) && spec_node_at(disk, r).unwrap().keys.len()
        >= 1;
    assert(subtree_wf(disk, r, h));
    assert(h == 0);
    lemma_height_unique(disk, r, BTree::height_at(disk, r), h);
}

/// A committed store with no entries left has a zero header pointer: the
/// empty tree.
pub proof fn law_empty_contents_clears_header(t: BTree, disk: Seq<u8>)
    requires
        t.wf(disk),
        t.committed(disk),
        t.as_kvs(disk).len() == 0,
    ensures
        t.root is None,
        spec_root_pointer(disk) == 0,
{
    match t.root {
        None => {},
        Some(r) => {
            let h = choose|hh: nat|
                subtree_wf(disk, r, hh) && spec_node_at(disk, r).unwrap().keys.len() >= 1;
            assert(subtree_wf(disk, r, h));
            lemma_height_unique(disk, r, BTree::height_at(disk, r), h);
            let n = spec_node_at(disk, r).unwrap();
            crate::rebalance::lemma_node_kvs_len(disk, n, h);
            assert(false);
        },
    }
}

} // verus!
