//! B-tree nodes.
//!
//! A node carries three parallel sequences: `keys` (strictly ascending),
//! `values` (`values[i]` associated with `keys[i]`), and, for internal
//! nodes, `children` (file offsets of the `keys.len() + 1` child pages).
//! A node's identity is the file offset of the page it was read from or
//! written to; nodes are written append-only, so a mutation gives the node
//! a fresh offset.

use vstd::prelude::*;

verus! {

/// Minimum degree of the tree: a non-root node holds between
/// `MIN_DEGREE - 1` and `2 * MIN_DEGREE - 1` keys.
pub const MIN_DEGREE: usize = 3;

/// Maximum number of keys a node can hold.
pub const MAX_KEYS: usize = 2 * MIN_DEGREE - 1;

/// Minimum number of keys a non-root node must hold.
pub const MIN_KEYS: usize = MIN_DEGREE - 1;

/// Largest combined key-plus-value length of one entry. Keeps a full node's
/// encoding within one page: `MAX_KEYS` entries of at most this size, their
/// length prefixes, the child offsets and the node header together stay
/// under the page size.
pub const KV_LIMIT: usize = 700;

/// One B-tree node.
pub struct Node {
    pub keys: Vec<Vec<u8>>,
    pub values: Vec<Vec<u8>>,
    pub children: Vec<u64>,
    pub is_leaf: bool,
}

/// The mathematical content of a node.
pub ghost struct NodeV {
    pub keys: Seq<Seq<u8>>,
    pub values: Seq<Seq<u8>>,
    pub children: Seq<u64>,
    pub leaf: bool,
}

/// The views of a sequence of byte vectors.
pub open spec fn views_of(v: Seq<Vec<u8>>) -> Seq<Seq<u8>> {
    Seq::new(v.len(), |i: int| v[i]@)
}

impl View for Node {
    type V = NodeV;

    open spec fn view(&self) -> NodeV {
        NodeV {
            keys: views_of(self.keys@),
            values: views_of(self.values@),
            children: self.children@,
            leaf: self.is_leaf,
        }
    }
}

/// One key-value entry is small enough for a full node to fit in a page.
pub open spec fn pair_fits(key: Seq<u8>, value: Seq<u8>) -> bool {
    key.len() + value.len() <= KV_LIMIT
}

/// The counts of a node's parallel sequences agree.
pub open spec fn node_shape(n: NodeV) -> bool {
    &&& n.values.len() == n.keys.len()
    &&& n.keys.len() <= MAX_KEYS
    &&& (n.leaf ==> n.children.len() == 0)
    &&& (!n.leaf ==> n.children.len() == n.keys.len() + 1)
}

/// Every entry of the node is small enough to encode.
pub open spec fn node_fits(n: NodeV) -> bool {
    forall|i: int| 0 <= i < n.keys.len() ==> pair_fits(n.keys[i], n.values[i])
}

impl Node {
    /// A fresh node without keys.
    pub fn new(is_leaf: bool) -> (n: Node)
        ensures
            n@.keys == Seq::<Seq<u8>>::empty(),
            n@.values == Seq::<Seq<u8>>::empty(),
            n@.children == Seq::<u64>::empty(),
            n@.leaf == is_leaf,
    {
        let n = Node { keys: Vec::new(), values: Vec::new(), children: Vec::new(), is_leaf };
        proof {
            assert(n@.keys =~= Seq::<Seq<u8>>::empty());
            assert(n@.values =~= Seq::<Seq<u8>>::empty());
        }
        n
    }
}

} // verus!
