//! The whole-tree validator.
//!
//! `BTree::validate` walks the tree from the root and checks every
//! structural invariant at run time: each page decodes, counts agree,
//! entries fit a page, keys ascend strictly within and across nodes,
//! non-root nodes are at least half full, and all leaves sit at one depth.
//! A `true` answer is proven to imply the tree's well-formedness.

use vstd::prelude::*;

use crate::btree::{BTree, BtError};
use crate::bytes::{bytes_cmp, lex_lt, Cmp, lemma_lex_transitive};
use crate::codec::{lemma_decode_shape, spec_node_at, spec_page_at};
use crate::model::{
    all_above, all_below, lemma_all_above_weaken, lemma_all_below_weaken, lemma_inter_above,
    lemma_inter_below, lemma_sorted_from_adjacent, min_filled, node_kvs_in, node_sorted,
    node_wf_in, subtree_kvs, subtree_wf, zip_kvs,
};
use crate::node::{Node, NodeV, node_fits, node_shape, pair_fits, KV_LIMIT, MIN_KEYS};
use crate::pager::{Pager, HEADER_SIZE, PAGE_SIZE};

verus! {

/// Checks that every entry of the node is small enough for a page.
pub(crate) fn check_node_fits(n: &Node) -> (r: bool)
    ensures
        r ==> node_fits(n@),
{
    if n.keys.len() != n.values.len() {
        return false;
    }
    let mut i: usize = 0;
    while i < n.keys.len()
        invariant
            n.keys.len() == n.values.len(),
            0 <= i <= n.keys.len(),
            forall|j: int| 0 <= j < i ==> pair_fits(#[trigger] n@.keys[j], n@.values[j]),
        decreases n.keys.len() - i,
    {
        if n.keys[i].len() > KV_LIMIT || n.values[i].len() > KV_LIMIT - n.keys[i].len() {
            return false;
        }
        proof {
            assert(n@.keys[i as int] == n.keys@[i as int]@);
            assert(n@.values[i as int] == n.values@[i as int]@);
        }
        i = i + 1;
    }
    true
}

/// Checks that the node's keys ascend strictly.
fn check_node_sorted(n: &Node) -> (r: bool)
    ensures
        r ==> node_sorted(n@),
{
    if n.keys.len() == 0 {
        return true;
    }
    let mut i: usize = 0;
    while i < n.keys.len() - 1
        invariant
            n.keys.len() >= 1,
            0 <= i <= n.keys.len() - 1,
            forall|j: int| 0 <= j < i ==> lex_lt(#[trigger] n@.keys[j], n@.keys[j + 1]),
        decreases n.keys.len() - i,
    {
        match bytes_cmp(&n.keys[i], &n.keys[i + 1]) {
            Cmp::Lt => {
                proof {
                    assert(n@.keys[i as int] == n.keys@[i as int]@);
                    assert(n@.keys[i + 1] == n.keys@[i + 1]@);
                }
                i = i + 1;
            },
            _ => {
                return false;
            },
        }
    }
    proof {
        assert forall|a: int, b: int| 0 <= a < b < n@.keys.len() implies lex_lt(
            n@.keys[a],
            n@.keys[b],
        ) by {
            lemma_sorted_from_adjacent(n@.keys, a, b);
        }
    }
    true
}

/// Checks the subtree at `off` against bounds `lo` and `hi`, to recursion
/// depth `fuel`; returns its height and its root node's key count. A
/// successful check proves the subtree well-formed and bounded.
#[verifier::rlimit(100)]
fn check_subtree(
    pager: &Pager,
    off: u64,
    lo: Option<&Vec<u8>>,
    hi: Option<&Vec<u8>>,
    fuel: u64,
) -> (r: Result<(u64, usize), BtError>)
    ensures
        r matches Ok(p) ==> {
            &&& subtree_wf(pager@, off, p.0 as nat)
            &&& spec_node_at(pager@, off) matches Some(m) && m.keys.len() == p.1
            &&& (lo matches Some(l) ==> all_above(subtree_kvs(pager@, off, p.0 as nat), l@))
            &&& (hi matches Some(u) ==> all_below(subtree_kvs(pager@, off, p.0 as nat), u@))
        },
    decreases fuel,
{
    if fuel == 0 {
        return Err(BtError::Corrupt);
    }
    let n = match Node::load(off, pager) {
        Err(e) => {
            return Err(e);
        },
        Ok(n) => n,
    };
    proof {
        lemma_decode_shape(spec_page_at(pager@, off));
    }
    if !check_node_fits(&n) {
        return Err(BtError::Corrupt);
    }
    if !check_node_sorted(&n) {
        return Err(BtError::Corrupt);
    }
    // the node's own keys must lie strictly between the bounds
    if n.keys.len() > 0 {
        match lo {
            Some(l) => {
                match bytes_cmp(l, &n.keys[0]) {
                    Cmp::Lt => {
                        proof {
                            assert(n@.keys[0] == n.keys@[0]@);
                        }
                    },
                    _ => {
                        return Err(BtError::Corrupt);
                    },
                }
            },
            None => {},
        }
        match hi {
            Some(u) => {
                match bytes_cmp(&n.keys[n.keys.len() - 1], u) {
                    Cmp::Lt => {
                        proof {
                            assert(n@.keys[n@.keys.len() - 1] == n.keys@[n.keys@.len() - 1]@);
                        }
                    },
                    _ => {
                        return Err(BtError::Corrupt);
                    },
                }
            },
            None => {},
        }
    }
    proof {
        assert forall|j: int| 0 <= j < n@.keys.len() implies (lo matches Some(l) ==> lex_lt(
            l@,
            #[trigger] n@.keys[j],
        )) && (hi matches Some(u) ==> lex_lt(n@.keys[j], u@)) by {
            if n@.keys.len() > 0 {
                if j > 0 {
                    assert(lex_lt(n@.keys[0], n@.keys[j]));
                }
                if j < n@.keys.len() - 1 {
                    assert(lex_lt(n@.keys[j], n@.keys[n@.keys.len() - 1]));
                }
                match lo {
                    Some(l) => {
                        if j > 0 {
                            lemma_lex_transitive(l@, n@.keys[0], n@.keys[j]);
                        }
                    },
                    None => {},
                }
                match hi {
                    Some(u) => {
                        if j < n@.keys.len() - 1 {
                            lemma_lex_transitive(n@.keys[j], n@.keys[n@.keys.len() - 1], u@);
                        }
                    },
                    None => {},
                }
            }
        }
    }
    if n.is_leaf {
        proof {
            assert(node_wf_in(pager@, n@, 0));
            let z = zip_kvs(n@.keys, n@.values);
            assert(subtree_kvs(pager@, off, 0) == z);
            assert forall|j: int| 0 <= j < z.len() implies z[j].0 == n@.keys[j] by {}
        }
        return Ok((0, n.keys.len()));
    }
    // internal: every child within its bounds, every child half full,
    // all children of one height
    let mut height: u64 = 0;
    let mut i: usize = 0;
    while i < n.children.len()
        invariant
            !n@.leaf,
            n@.children.len() == n@.keys.len() + 1,
            n@.values.len() == n@.keys.len(),
            n@.keys.len() <= crate::node::MAX_KEYS,
            node_sorted(n@),
            node_fits(n@),
            0 <= i <= n.children.len(),
            fuel >= 1,
            i > 0 ==> forall|j: int| 0 <= j < i ==> subtree_wf(
                pager@,
                #[trigger] n@.children[j],
                height as nat,
            ),
            forall|j: int| 0 <= j < i ==> min_filled(pager@, #[trigger] n@.children[j]),
            forall|j: int| 0 <= j < i && j < n@.keys.len() ==> all_below(
                subtree_kvs(pager@, #[trigger] n@.children[j], height as nat),
                n@.keys[j],
            ),
            forall|j: int| 1 <= j < i ==> all_above(
                subtree_kvs(pager@, #[trigger] n@.children[j], height as nat),
                n@.keys[j - 1],
            ),
            i > 0 && (lo matches Some(l)) ==> all_above(
                subtree_kvs(pager@, n@.children[0], height as nat),
                lo.unwrap()@,
            ),
            i > n@.keys.len() && (hi matches Some(u)) ==> all_below(
                subtree_kvs(pager@, n@.children[n@.keys.len() as int], height as nat),
                hi.unwrap()@,
            ),
            forall|j: int| 0 <= j < n@.keys.len() ==> (lo matches Some(l) ==> lex_lt(
                l@,
                #[trigger] n@.keys[j],
            )) && (hi matches Some(u) ==> lex_lt(n@.keys[j], u@)),
        decreases n.children.len() - i,
    {
        let child_lo: Option<&Vec<u8>> = if i == 0 {
            lo
        } else {
            Some(&n.keys[i - 1])
        };
        let child_hi: Option<&Vec<u8>> = if i < n.keys.len() {
            Some(&n.keys[i])
        } else {
            hi
        };
        let sub = match check_subtree(pager, n.children[i], child_lo, child_hi, fuel - 1) {
            Err(e) => {
                return Err(e);
            },
            Ok(p) => p,
        };
        if sub.1 < MIN_KEYS {
            return Err(BtError::Corrupt);
        }
        if i == 0 {
            height = sub.0;
        } else if sub.0 != height {
            return Err(BtError::Corrupt);
        }
        proof {
            assert(n@.children[i as int] == n.children@[i as int]);
            if i > 0 {
                assert(n@.keys[i - 1] == n.keys@[i - 1]@);
            }
            if i < n.keys.len() {
                assert(n@.keys[i as int] == n.keys@[i as int]@);
            }
        }
        i = i + 1;
    }
    if height == u64::MAX {
        return Err(BtError::Corrupt);
    }
    let ghost hc = height as nat;
    proof {
        let ghost lo_v: Option<Seq<u8>> = match lo {
            Some(l) => Some(l@),
            None => None,
        };
        let ghost hi_v: Option<Seq<u8>> = match hi {
            Some(u) => Some(u@),
            None => None,
        };
        lemma_check_assemble(pager@, n@, hc, lo_v, hi_v);
    }
    Ok((height + 1, n.keys.len()))
}

/// Assembles a checked internal node's facts into well-formedness and
/// bounds of its contents.
#[verifier::rlimit(100)]
#[verifier::spinoff_prover]
proof fn lemma_check_assemble(
    disk: Seq<u8>,
    nv: NodeV,
    hc: nat,
    lo_v: Option<Seq<u8>>,
    hi_v: Option<Seq<u8>>,
)
    requires
        !nv.leaf,
        nv.children.len() == nv.keys.len() + 1,
        nv.values.len() == nv.keys.len(),
        nv.keys.len() <= crate::node::MAX_KEYS,
        node_sorted(nv),
        node_fits(nv),
        forall|j: int| 0 <= j < nv.children.len() ==> subtree_wf(disk, #[trigger] nv.children[j], hc),
        forall|j: int| 0 <= j < nv.children.len() ==> min_filled(disk, #[trigger] nv.children[j]),
        forall|j: int| 0 <= j < nv.keys.len() ==> all_below(
            subtree_kvs(disk, #[trigger] nv.children[j], hc),
            nv.keys[j],
        ),
        forall|j: int| 1 <= j < nv.children.len() ==> all_above(
            subtree_kvs(disk, #[trigger] nv.children[j], hc),
            nv.keys[j - 1],
        ),
        lo_v matches Some(l) ==> all_above(subtree_kvs(disk, nv.children[0], hc), l) && (forall|
            j: int,
        |
            0 <= j < nv.keys.len() ==> lex_lt(l, #[trigger] nv.keys[j])),
        hi_v matches Some(u) ==> all_below(
            subtree_kvs(disk, nv.children[nv.keys.len() as int], hc),
            u,
        ) && (forall|j: int| 0 <= j < nv.keys.len() ==> lex_lt(#[trigger] nv.keys[j], u)),
    ensures
        node_wf_in(disk, nv, (hc + 1) as nat),
        lo_v matches Some(l) ==> all_above(node_kvs_in(disk, nv, (hc + 1) as nat), l),
        hi_v matches Some(u) ==> all_below(node_kvs_in(disk, nv, (hc + 1) as nat), u),
{
    assert(node_wf_in(disk, nv, (hc + 1) as nat));
    let kvs = crate::model::inter_kvs(disk, nv.keys, nv.values, nv.children, hc);
    assert(node_kvs_in(disk, nv, (hc + 1) as nat) == kvs);
    match lo_v {
        Some(l) => {
            assert forall|j: int| 0 <= j < nv.children.len() implies all_above(
                subtree_kvs(disk, #[trigger] nv.children[j], hc),
                l,
            ) by {
                if j > 0 {
                    assert(all_above(subtree_kvs(disk, nv.children[j], hc), nv.keys[j - 1]));
                    assert(lex_lt(l, nv.keys[j - 1]));
                    lemma_all_above_weaken(subtree_kvs(disk, nv.children[j], hc), l, nv.keys[j - 1]);
                }
            }
            lemma_inter_above(disk, nv.keys, nv.values, nv.children, hc, l);
        },
        None => {},
    }
    match hi_v {
        Some(u) => {
            assert forall|j: int| 0 <= j < nv.children.len() implies all_below(
                subtree_kvs(disk, #[trigger] nv.children[j], hc),
                u,
            ) by {
                if j < nv.keys.len() {
                    assert(all_below(subtree_kvs(disk, nv.children[j], hc), nv.keys[j]));
                    lemma_all_below_weaken(subtree_kvs(disk, nv.children[j], hc), nv.keys[j], u);
                }
            }
            lemma_inter_below(disk, nv.keys, nv.values, nv.children, hc, u);
        },
        None => {},
    }
}

impl BTree {
    /// Walks the whole tree and checks every structural invariant: pages
    /// decode, counts agree, keys ascend strictly across the tree,
    /// non-root nodes are at least half full, the root holds a key, and
    /// all leaves sit at one depth. A `true` answer proves the tree
    /// well-formed; a `false` answer proves nothing, since well-formedness
    /// alone does not bound how deep the walk must go.
    pub fn validate(&self, pager: &Pager) -> (r: bool)
        ensures
            r ==> self.wf(pager@),
            self.root is None ==> (r <==> pager@.len() >= HEADER_SIZE),
    {
        if pager.as_bytes().len() < HEADER_SIZE {
            return false;
        }
        match self.root {
            None => true,
            Some(off) => {
                let fuel = (pager.as_bytes().len() / PAGE_SIZE) as u64 + 2;
                match check_subtree(pager, off, None, None, fuel) {
                    Err(_) => false,
                    Ok(p) => {
                        proof {
                            if p.1 >= 1 {
                                assert(subtree_wf(pager@, off, p.0 as nat) && spec_node_at(
                                    pager@,
                                    off,
                                ).unwrap().keys.len() >= 1);
                            }
                        }
                        p.1 >= 1
                    },
                }
            },
        }
    }
}

} // verus!
