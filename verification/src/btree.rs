//! The B-tree engine.
//!
//! Nodes live at file offsets and are written append-only: every mutation
//! writes the changed node at the end of the image and hands the fresh
//! offset upward, so each parent updates its child pointer and is rewritten
//! in turn. The root offset in the file header is written last: it is the
//! commit point.

use vstd::prelude::*;

use crate::bytes::{clone_bytes, copy_range, lex_lt, lemma_lex_trichotomy, bytes_cmp, Cmp};
use crate::codec::{
    lemma_decode_of_encode, lemma_encode_fits, spec_encode_node, spec_node_at, spec_page_at,
};
use crate::kvs::{
    kvs_lookup, kvs_insert, kvs_remove, lemma_lookup_all_other, lemma_lookup_index,
};
use crate::model::{
    agree_past_header, all_above, all_below, extends, inter_kvs, min_filled, node_kvs_in,
    node_sorted, node_wf_in, subtree_kvs, subtree_wf, zip_kvs, lemma_subtree_frame,
    lemma_node_in_frame, lemma_node_at_frame, lemma_extends_trans, lemma_extends_agree,
    lemma_header_write_agree, lemma_all_above_weaken, lemma_all_below_weaken,
};
use crate::node::{
    Node, NodeV, node_shape, node_fits, pair_fits, views_of, MAX_KEYS, MIN_KEYS, MIN_DEGREE,
    KV_LIMIT,
};
use crate::pager::{Pager, spec_root_pointer, spec_write, HEADER_SIZE, PAGE_SIZE};
use crate::route::{
    is_rank, lemma_route_lookup, lemma_split_halves, lemma_split_update_wf,
    lemma_split_update_kvs, lemma_leaf_insert, lemma_node_overwrite, split_left, split_right,
};

verus! {

/// Why an operation failed. The store aborts the operation; the committed
/// state — what the header's root pointer designates — is unchanged.
#[derive(PartialEq, Eq, Structural, Clone, Copy, Debug)]
pub enum BtError {
    /// A page failed to decode, or a read ran past the end of the image.
    Corrupt,
    /// A key-value pair too large for a node page.
    TooLarge,
    /// The image cannot grow by another page.
    Full,
}

/// `n` zero bytes.
pub open spec fn spec_zeros(n: nat) -> Seq<u8> {
    Seq::new(n, |i: int| 0u8)
}

/// The page a node is written as: its encoding, padded with zeros.
pub open spec fn spec_page_of(n: NodeV) -> Seq<u8>
    recommends
        spec_encode_node(n).len() <= PAGE_SIZE,
{
    spec_encode_node(n) + spec_zeros((PAGE_SIZE - spec_encode_node(n).len()) as nat)
}

impl Node {
    /// Reads and decodes the node page at `offset`. Fails exactly when no
    /// valid node page lies there: corruption.
    pub fn load(offset: u64, pager: &Pager) -> (r: Result<Node, BtError>)
        ensures
            r matches Ok(n) ==> spec_node_at(pager@, offset) == Some(n@) && node_shape(n@),
            r is Err <==> spec_node_at(pager@, offset) is None,
            r is Err ==> r == Err::<Node, BtError>(BtError::Corrupt),
    {
        if offset < HEADER_SIZE as u64 {
            return Err(BtError::Corrupt);
        }
        let page = match pager.read_at(offset, PAGE_SIZE) {
            Err(()) => {
                return Err(BtError::Corrupt);
            },
            Ok(p) => p,
        };
        match Node::from_bytes(&page) {
            Err(()) => Err(BtError::Corrupt),
            Ok(n) => {
                proof {
                    crate::codec::lemma_decode_shape(spec_page_at(pager@, offset));
                }
                Ok(n)
            },
        }
    }

    /// Encodes the node, pads it to one page, and appends the page at the
    /// end of the image: the node's new offset. Fails exactly when the
    /// image cannot grow by one more page.
    pub fn save(&self, pager: &mut Pager) -> (r: Result<u64, BtError>)
        requires
            node_shape(self@),
            node_fits(self@),
            old(pager)@.len() >= HEADER_SIZE,
        ensures
            r matches Ok(off) ==> {
                &&& off == old(pager)@.len()
                &&& off >= HEADER_SIZE
                &&& final(pager)@ == old(pager)@ + spec_page_of(self@)
                &&& final(pager)@.len() == old(pager)@.len() + PAGE_SIZE
                &&& extends(final(pager)@, old(pager)@)
                &&& agree_past_header(final(pager)@, old(pager)@)
                &&& spec_node_at(final(pager)@, off) == Some(self@)
            },
            r is Err ==> final(pager)@ == old(pager)@ && r == Err::<u64, BtError>(BtError::Full),
            r is Err <==> old(pager)@.len() + PAGE_SIZE > usize::MAX,
    {
        proof {
            lemma_encode_fits(self@);
        }
        let mut page = self.to_bytes();
        while page.len() < PAGE_SIZE
            invariant
                spec_encode_node(self@).len() <= page@.len() <= PAGE_SIZE,
                page@ == spec_encode_node(self@) + spec_zeros(
                    (page@.len() - spec_encode_node(self@).len()) as nat,
                ),
            decreases PAGE_SIZE - page.len(),
        {
            page.push(0u8);
            proof {
                assert(page@ =~= spec_encode_node(self@) + spec_zeros(
                    (page@.len() - spec_encode_node(self@).len()) as nat,
                ));
            }
        }
        proof {
            assert(page@ =~= spec_page_of(self@));
        }
        let offset = pager.get_end_offset();
        if PAGE_SIZE > usize::MAX - pager.as_bytes().len() {
            return Err(BtError::Full);
        }
        pager.write_at(offset, &page);
        proof {
            let d1 = old(pager)@;
            let d2 = pager@;
            assert(d2 =~= d1 + spec_page_of(self@));
            assert(d2.subrange(0, d1.len() as int) =~= d1);
            assert(spec_page_at(d2, offset) =~= spec_page_of(self@));
            assert(spec_page_of(self@).subrange(0, spec_encode_node(self@).len() as int)
                =~= spec_encode_node(self@));
            assert forall|i: int| 0 <= i < self@.keys.len() implies #[trigger] self@.keys[i].len()
                <= u64::MAX by {
                assert(self@.keys[i] == self.keys@[i]@);
            }
            assert forall|i: int|
                0 <= i < self@.values.len() implies #[trigger] self@.values[i].len()
                <= u64::MAX by {
                assert(self@.values[i] == self.values@[i]@);
            }
            lemma_decode_of_encode(spec_page_of(self@), self@);
        }
        Ok(offset)
    }

    /// The rank of `key` among the node's keys: how many lie below it.
    fn find_rank(&self, key: &Vec<u8>) -> (i: usize)
        requires
            node_sorted(self@),
        ensures
            is_rank(self@, key@, i as int),
            i as int <= self@.keys.len(),
    {
        let mut i: usize = 0;
        while i < self.keys.len()
            invariant
                0 <= i <= self.keys.len(),
                forall|j: int| 0 <= j < i ==> lex_lt(#[trigger] self@.keys[j], key@),
            decreases self.keys.len() - i,
        {
            match crate::bytes::bytes_cmp(&self.keys[i], key) {
                crate::bytes::Cmp::Lt => {
                    proof {
                        assert(self@.keys[i as int] == self.keys@[i as int]@);
                    }
                    i = i + 1;
                },
                _ => {
                    proof {
                        assert(self@.keys[i as int] == self.keys@[i as int]@);
                        lemma_lex_trichotomy(self@.keys[i as int], key@);
                    }
                    return i;
                },
            }
        }
        i
    }

    /// Searches the subtree under this node for `key`.
    pub fn search(&self, key: &Vec<u8>, pager: &Pager, Ghost(h): Ghost<nat>) -> (r: Option<
        Vec<u8>,
    >)
        requires
            node_wf_in(pager@, self@, h),
        ensures
            kvs_lookup(node_kvs_in(pager@, self@, h), key@) matches Some(v) ==> r matches Some(rv)
                && rv@ == v,
            kvs_lookup(node_kvs_in(pager@, self@, h), key@) is None ==> r is None,
        decreases h,
    {
        let i = self.find_rank(key);
        let ghost kvs = node_kvs_in(pager@, self@, h);
        if i < self.keys.len() {
            match crate::bytes::bytes_cmp(&self.keys[i], key) {
                crate::bytes::Cmp::Eq => {
                    proof {
                        assert(self@.keys[i as int] == self.keys@[i as int]@);
                        if self.is_leaf || h == 0 {
                            crate::model::lemma_node_kvs_sorted(pager@, self@, h);
                            assert(zip_kvs(self@.keys, self@.values)[i as int] == (
                            self@.keys[i as int],
                            self@.values[i as int],
                            ));
                            lemma_lookup_index(kvs, i as int);
                        } else {
                            lemma_route_lookup(pager@, self@, h, key@, i as int);
                        }
                        assert(kvs_lookup(kvs, key@) == Some(self@.values[i as int]));
                    }
                    let v = copy_range(&self.values[i], 0, self.values[i].len());
                    proof {
                        assert(v@ =~= self@.values[i as int]);
                    }
                    return Some(v);
                },
                _ => {
                    proof {
                        assert(self@.keys[i as int] == self.keys@[i as int]@);
                    }
                },
            }
        }
        if self.is_leaf {
            proof {
                assert(kvs == zip_kvs(self@.keys, self@.values));
                assert forall|j: int| 0 <= j < kvs.len() implies #[trigger] kvs[j].0 != key@ by {
                    assert(kvs[j].0 == self@.keys[j]);
                    if j < i as int {
                        lemma_lex_trichotomy(self@.keys[j], key@);
                    } else {
                        assert(!lex_lt(self@.keys[i as int], key@));
                        lemma_lex_trichotomy(self@.keys[j], key@);
                        if lex_lt(key@, self@.keys[j]) {
                        } else if self@.keys[j] == key@ {
                            if j > i as int {
                                assert(lex_lt(self@.keys[i as int], self@.keys[j]));
                            }
                            assert(false);
                        }
                    }
                }
                lemma_lookup_all_other(kvs, key@);
            }
            return None;
        }
        proof {
            lemma_route_lookup(pager@, self@, h, key@, i as int);
        }
        let child = match Node::load(self.children[i], pager) {
            Err(_) => {
                proof {
                    assert(subtree_wf(pager@, self@.children[i as int], (h - 1) as nat));
                    assert(false);
                }
                return None;
            },
            Ok(c) => c,
        };
        proof {
            assert(spec_node_at(pager@, self@.children[i as int]) == Some(child@));
            assert(node_wf_in(pager@, child@, (h - 1) as nat));
        }
        child.search(key, pager, Ghost((h - 1) as nat))
    }
}

impl Node {
    /// Splits the full child at index `i` of this node in two, promoting
    /// the median entry into this node. The subtree's contents is
    /// unchanged; both halves are written at fresh offsets.
    #[verifier::rlimit(100)]
    #[verifier::spinoff_prover]
    fn split_child(
        &mut self,
        i: usize,
        child: &mut Node,
        pager: &mut Pager,
        Ghost(h): Ghost<nat>,
    ) -> (r: Result<(), BtError>)
        requires
            node_wf_in(old(pager)@, old(self)@, h),
            !old(self)@.leaf,
            i < old(self)@.children.len(),
            spec_node_at(old(pager)@, old(self)@.children[i as int]) == Some(old(child)@),
            old(child)@.keys.len() == MAX_KEYS,
            old(self)@.keys.len() < MAX_KEYS,
            old(pager)@.len() >= HEADER_SIZE,
        ensures
            extends(final(pager)@, old(pager)@),
            r is Ok ==> {
                &&& node_wf_in(final(pager)@, final(self)@, h)
                &&& node_kvs_in(final(pager)@, final(self)@, h) == node_kvs_in(
                    old(pager)@,
                    old(self)@,
                    h,
                )
                &&& final(self)@.keys == old(self)@.keys.insert(
                    i as int,
                    old(child)@.keys[MIN_KEYS as int],
                )
                &&& final(self)@.values == old(self)@.values.insert(
                    i as int,
                    old(child)@.values[MIN_KEYS as int],
                )
                &&& final(self)@.children.len() == old(self)@.children.len() + 1
                &&& final(self)@.leaf == old(self)@.leaf
                &&& spec_node_at(final(pager)@, final(self)@.children[i as int]) matches Some(cl)
                    && cl.keys.len() == MIN_KEYS
                &&& spec_node_at(final(pager)@, final(self)@.children[i + 1]) matches Some(cr)
                    && cr.keys.len() == MIN_KEYS
            },
            r is Err ==> {
                &&& r == Err::<(), BtError>(BtError::Full)
                &&& final(pager)@.len() + PAGE_SIZE > usize::MAX
                &&& final(self)@ == old(self)@
            },
    {
        let ghost d0 = pager@;
        let ghost c = old(child)@;
        let ghost n = old(self)@;
        let ghost hc = (h - 1) as nat;
        proof {
            assert(pager@.subrange(0, pager@.len() as int) =~= pager@);
            assert(subtree_wf(d0, n.children[i as int], hc));
            assert(node_wf_in(d0, c, hc));
            lemma_split_halves(d0, c, hc);
        }
        let median_key = clone_bytes(&child.keys[MIN_KEYS]);
        let median_val = clone_bytes(&child.values[MIN_KEYS]);
        let mut right = Node::new(child.is_leaf);
        right.keys = child.keys.split_off(MIN_DEGREE);
        right.values = child.values.split_off(MIN_DEGREE);
        let _ = child.keys.pop();
        let _ = child.values.pop();
        if !child.is_leaf {
            right.children = child.children.split_off(MIN_DEGREE);
        }
        proof {
            assert(median_key@ == c.keys[MIN_KEYS as int]);
            assert(median_val@ == c.values[MIN_KEYS as int]);
            assert(child@.keys =~= split_left(c).keys);
            assert(child@.values =~= split_left(c).values);
            assert(child@.children =~= split_left(c).children);
            assert(child@ == split_left(c));
            assert(right@.keys =~= split_right(c).keys);
            assert(right@.values =~= split_right(c).values);
            assert(right@.children =~= split_right(c).children);
            assert(right@ == split_right(c));
        }
        let left_off = match child.save(pager) {
            Err(e) => {
                return Err(e);
            },
            Ok(o) => o,
        };
        let ghost d1 = pager@;
        let right_off = match right.save(pager) {
            Err(e) => {
                proof {
                    assert(pager@.subrange(0, pager@.len() as int) =~= pager@);
                    lemma_extends_trans(pager@, d1, d0);
                }
                return Err(e);
            },
            Ok(o) => o,
        };
        let ghost d2 = pager@;
        proof {
            lemma_extends_agree(d2, d1);
            lemma_node_at_frame(d1, d2, left_off);
            crate::route::lemma_split_saved(
                d0,
                d1,
                d2,
                c,
                n.children[i as int],
                left_off,
                right_off,
                hc,
            );
            lemma_extends_trans(d2, d1, d0);
        }
        self.keys.insert(i, median_key);
        self.values.insert(i, median_val);
        self.children[i] = left_off;
        self.children.insert(i + 1, right_off);
        proof {
            assert(self@.keys =~= n.keys.insert(i as int, c.keys[MIN_KEYS as int]));
            assert(self@.values =~= n.values.insert(i as int, c.values[MIN_KEYS as int]));
            assert(self@.children =~= n.children.update(i as int, left_off).insert(
                i + 1,
                right_off,
            ));
            assert(pair_fits(c.keys[MIN_KEYS as int], c.values[MIN_KEYS as int]));
            lemma_split_update_wf(
                d0,
                d2,
                n,
                self@,
                h,
                i as int,
                left_off,
                right_off,
                c.keys[MIN_KEYS as int],
                c.values[MIN_KEYS as int],
            );
            lemma_split_update_kvs(
                d0,
                d2,
                n,
                self@,
                h,
                i as int,
                left_off,
                right_off,
                c.keys[MIN_KEYS as int],
                c.values[MIN_KEYS as int],
            );
            assert(self@.children[i as int] == left_off);
            assert(self@.children[i + 1] == right_off);
        }
        Ok(())
    }

    /// Inserts `key` and `value` into the subtree under this node, which
    /// must not be full; splits any full child before descending into it,
    /// and overwrites the value in place when the key is already present.
    /// Returns the subtree's new root offset.
    #[verifier::rlimit(100)]
    #[verifier::spinoff_prover]
    fn insert_non_full(
        &mut self,
        key: Vec<u8>,
        value: Vec<u8>,
        pager: &mut Pager,
        Ghost(h): Ghost<nat>,
    ) -> (r: Result<u64, BtError>)
        requires
            node_wf_in(old(pager)@, old(self)@, h),
            old(self)@.keys.len() < MAX_KEYS,
            key@.len() + value@.len() <= KV_LIMIT,
            old(pager)@.len() >= HEADER_SIZE,
        ensures
            extends(final(pager)@, old(pager)@),
            r matches Ok(off) ==> {
                &&& subtree_wf(final(pager)@, off, h)
                &&& spec_node_at(final(pager)@, off) matches Some(m) && m.keys.len() >= old(
                    self,
                )@.keys.len() && m.leaf == old(self)@.leaf
                &&& (old(self)@.leaf || old(self)@.keys.len() >= 1 || (0 < old(
                    self,
                )@.children.len() && (spec_node_at(old(pager)@, old(self)@.children[0])
                    matches Some(c0) && c0.keys.len() == MAX_KEYS))) ==> spec_node_at(
                    final(pager)@,
                    off,
                ).unwrap().keys.len() >= 1
                &&& subtree_kvs(final(pager)@, off, h) == kvs_insert(
                    node_kvs_in(old(pager)@, old(self)@, h),
                    key@,
                    value@,
                )
            },
            r is Err ==> r == Err::<u64, BtError>(BtError::Full) && final(pager)@.len() + PAGE_SIZE
                > usize::MAX,
        decreases h,
    {
        let ghost d0 = pager@;
        let ghost n = old(self)@;
        proof {
            assert(pager@.subrange(0, pager@.len() as int) =~= pager@);
        }
        let mut i = self.find_rank(&key);
        let mut found = false;
        if i < self.keys.len() {
            match bytes_cmp(&self.keys[i], &key) {
                Cmp::Eq => {
                    found = true;
                    proof {
                        assert(self@.keys[i as int] == self.keys@[i as int]@);
                    }
                },
                _ => {
                    proof {
                        assert(self@.keys[i as int] == self.keys@[i as int]@);
                    }
                },
            }
        }
        if found {
            // the key sits in this node: overwrite its value in place
            self.values[i] = value;
            proof {
                assert(self@.values =~= n.values.update(i as int, value@));
                lemma_node_overwrite(d0, n, self@, h, key@, value@, i as int);
            }
            let off = match self.save(pager) {
                Err(e) => {
                    return Err(e);
                },
                Ok(o) => o,
            };
            proof {
                lemma_extends_agree(pager@, d0);
                lemma_node_in_frame(d0, pager@, self@, h);
                assert(subtree_wf(pager@, off, h));
                assert(subtree_kvs(pager@, off, h) == node_kvs_in(pager@, self@, h));
            }
            return Ok(off);
        }
        if self.is_leaf {
            self.keys.insert(i, key);
            self.values.insert(i, value);
            proof {
                assert(self@.keys =~= n.keys.insert(i as int, key@));
                assert(self@.values =~= n.values.insert(i as int, value@));
                lemma_leaf_insert(d0, n, self@, key@, value@, i as int);
            }
            let off = match self.save(pager) {
                Err(e) => {
                    return Err(e);
                },
                Ok(o) => o,
            };
            proof {
                lemma_extends_agree(pager@, d0);
                lemma_node_in_frame(d0, pager@, self@, h);
            }
            return Ok(off);
        }
        // internal node: split a full child before descending into it
        let ghost hc = (h - 1) as nat;
        proof {
            assert(subtree_wf(d0, n.children[i as int], hc));
        }
        let mut child = match Node::load(self.children[i], pager) {
            Err(e) => {
                proof {
                    assert(false);
                }
                return Err(BtError::Full);
            },
            Ok(c) => c,
        };
        if child.keys.len() == MAX_KEYS {
            match self.split_child(i, &mut child, pager, Ghost(h)) {
                Err(e) => {
                    return Err(BtError::Full);
                },
                Ok(()) => {},
            }
            let ghost d1 = pager@;
            let ghost n1 = self@;
            let ghost mk = self@.keys[i as int];
            proof {
                assert(n1.keys[i as int] == n.keys.insert(
                    i as int,
                    spec_node_at(d0, n.children[i as int]).unwrap().keys[MIN_KEYS as int],
                )[i as int]);
                assert forall|j: int| 0 <= j < i implies lex_lt(#[trigger] n1.keys[j], key@) by {
                    assert(n1.keys[j] == n.keys[j]);
                }
            }
            match bytes_cmp(&self.keys[i], &key) {
                Cmp::Eq => {
                    // the promoted median is the key itself: overwrite here
                    proof {
                        assert(self@.keys[i as int] == self.keys@[i as int]@);
                        assert(!lex_lt(n1.keys[i as int], key@)) by {
                            lemma_lex_trichotomy(n1.keys[i as int], key@);
                        }
                        assert(is_rank(n1, key@, i as int));
                    }
                    self.values[i] = value;
                    proof {
                        assert(self@.values =~= n1.values.update(i as int, value@));
                        lemma_node_overwrite(d1, n1, self@, h, key@, value@, i as int);
                    }
                    let off = match self.save(pager) {
                        Err(e) => {
                            proof {
                                assert(pager@.subrange(0, pager@.len() as int) =~= pager@);
                                lemma_extends_trans(pager@, d1, d0);
                            }
                            return Err(e);
                        },
                        Ok(o) => o,
                    };
                    proof {
                        lemma_extends_trans(pager@, d1, d0);
                        lemma_extends_agree(pager@, d1);
                        lemma_node_in_frame(d1, pager@, self@, h);
                        assert(subtree_kvs(pager@, off, h) == kvs_insert(
                            node_kvs_in(d1, n1, h),
                            key@,
                            value@,
                        ));
                        assert(node_kvs_in(d1, n1, h) == node_kvs_in(d0, n, h));
                    }
                    return Ok(off);
                },
                Cmp::Lt => {
                    // the key lies above the median: descend right of it
                    proof {
                        assert(self@.keys[i as int] == self.keys@[i as int]@);
                        assert(lex_lt(n1.keys[i as int], key@));
                    }
                    i = i + 1;
                },
                Cmp::Gt => {
                    proof {
                        assert(self@.keys[i as int] == self.keys@[i as int]@);
                        assert(!lex_lt(n1.keys[i as int], key@)) by {
                            lemma_lex_trichotomy(n1.keys[i as int], key@);
                        }
                    }
                },
            }
            proof {
                assert(is_rank(n1, key@, i as int));
                assert(i < n1.keys.len() ==> n1.keys[i as int] != key@) by {
                    if i < n1.keys.len() {
                        lemma_lex_trichotomy(n1.keys[i as int], key@);
                    }
                }
                assert(subtree_wf(d1, n1.children[i as int], hc));
                assert(spec_node_at(d1, n1.children[i as int]).unwrap().keys.len() == MIN_KEYS);
            }
            let mut c2 = match Node::load(self.children[i], pager) {
                Err(e) => {
                    proof {
                        assert(false);
                    }
                    return Err(BtError::Full);
                },
                Ok(c) => c,
            };
            proof {
                assert(node_wf_in(d1, c2@, hc));
                assert(c2@.keys.len() == MIN_KEYS);
            }
                let newoff = match c2.insert_non_full(key, value, pager, Ghost(hc)) {
                Err(e) => {
                    proof {
                        lemma_extends_trans(pager@, d1, d0);
                    }
                    return Err(e);
                },
                Ok(o) => o,
            };
            let ghost d2 = pager@;
            self.children[i] = newoff;
            proof {
                lemma_extends_agree(d2, d1);
                assert(self@.children =~= n1.children.update(i as int, newoff));
                crate::route::lemma_descend_insert(
                    d1,
                    d2,
                    n1,
                    self@,
                    h,
                    i as int,
                    newoff,
                    key@,
                    value@,
                );
            }
            let off = match self.save(pager) {
                Err(e) => {
                    proof {
                        lemma_extends_trans(d2, d1, d0);
                    }
                    return Err(e);
                },
                Ok(o) => o,
            };
            proof {
                lemma_extends_trans(d2, d1, d0);
                lemma_extends_trans(pager@, d2, d0);
                lemma_extends_agree(pager@, d2);
                lemma_node_in_frame(d2, pager@, self@, h);
            }
            return Ok(off);
        }
        // child has room: descend directly
        proof {
            assert(is_rank(n, key@, i as int));
            assert(i < n.keys.len() ==> n.keys[i as int] != key@);
            assert(node_wf_in(d0, child@, hc));
            assert(child@.keys.len() >= MIN_KEYS) by {
                assert(min_filled(d0, n.children[i as int]));
            }
        }
        let newoff = match child.insert_non_full(key, value, pager, Ghost(hc)) {
            Err(e) => {
                return Err(e);
            },
            Ok(o) => o,
        };
        let ghost d2 = pager@;
        self.children[i] = newoff;
        proof {
            lemma_extends_agree(d2, d0);
            assert(self@.children =~= n.children.update(i as int, newoff));
            crate::route::lemma_descend_insert(
                d0,
                d2,
                n,
                self@,
                h,
                i as int,
                newoff,
                key@,
                value@,
            );
        }
        let off = match self.save(pager) {
            Err(e) => {
                return Err(e);
            },
            Ok(o) => o,
        };
        proof {
            lemma_extends_trans(pager@, d2, d0);
            lemma_extends_agree(pager@, d2);
            lemma_node_in_frame(d2, pager@, self@, h);
        }
        Ok(off)
    }
}

/// The B-tree: one optional root offset. An empty tree has none.
pub struct BTree {
    pub root: Option<u64>,
}

impl BTree {
    /// The tree on `disk` is well-formed: the image holds a header, and
    /// the root, if any, designates a well-formed subtree whose root node
    /// holds at least one key.
    pub open spec fn wf(self, disk: Seq<u8>) -> bool {
        &&& disk.len() >= HEADER_SIZE
        &&& match self.root {
            None => true,
            Some(r) => exists|h: nat|
                #[trigger] subtree_wf(disk, r, h) && spec_node_at(disk, r).unwrap().keys.len() >= 1,
        }
    }

    /// The height of the subtree at `r`: the depth at which its leaves sit.
    pub open spec fn height_at(disk: Seq<u8>, r: u64) -> nat {
        choose|h: nat| subtree_wf(disk, r, h)
    }

    /// The contents of the tree: its key-value pairs in key order.
    pub open spec fn as_kvs(self, disk: Seq<u8>) -> Seq<(Seq<u8>, Seq<u8>)> {
        match self.root {
            None => Seq::empty(),
            Some(r) => subtree_kvs(disk, r, BTree::height_at(disk, r)),
        }
    }

    /// The tree the header of `disk` designates: the committed tree.
    pub open spec fn committed_tree(disk: Seq<u8>) -> BTree {
        BTree {
            root: if spec_root_pointer(disk) == 0 {
                None
            } else {
                Some(spec_root_pointer(disk))
            },
        }
    }

    /// The header designates this tree's root: the commit point has been
    /// written.
    pub open spec fn committed(self, disk: Seq<u8>) -> bool {
        spec_root_pointer(disk) == match self.root {
            None => 0u64,
            Some(r) => r,
        }
    }

    /// A tree handle on the given root offset.
    pub fn new(root_offset: Option<u64>) -> (t: BTree)
        ensures
            t.root == root_offset,
    {
        BTree { root: root_offset }
    }

    /// Returns the value associated with `key`, or `None` if absent.
    pub fn search(&self, key: &Vec<u8>, pager: &Pager) -> (r: Option<Vec<u8>>)
        requires
            self.wf(pager@),
        ensures
            kvs_lookup(self.as_kvs(pager@), key@) matches Some(v) ==> r matches Some(rv) && rv@
                == v,
            kvs_lookup(self.as_kvs(pager@), key@) is None ==> r is None,
    {
        match self.root {
            None => {
                proof {
                    assert(kvs_lookup(self.as_kvs(pager@), key@) is None);
                }
                None
            },
            Some(root_id) => {
                let ghost h = BTree::height_at(pager@, root_id);
                proof {
                    assert(exists|hh: nat| subtree_wf(pager@, root_id, hh));
                    assert(subtree_wf(pager@, root_id, h));
                }
                let root_node = match Node::load(root_id, pager) {
                    Err(_) => {
                        proof {
                            assert(false);
                        }
                        return None;
                    },
                    Ok(n) => n,
                };
                proof {
                    assert(node_wf_in(pager@, root_node@, h));
                }
                root_node.search(key, pager, Ghost(h))
            },
        }
    }
}

impl BTree {
    /// Reads the tree handle back from the file header: the committed
    /// root. Fails exactly when the image lacks a header.
    pub fn load_from_pager(pager: &Pager) -> (r: Result<BTree, BtError>)
        ensures
            r matches Ok(t) ==> t == BTree::committed_tree(pager@),
            r matches Ok(t) ==> t.committed(pager@) && (t.root is Some ==> t.root.unwrap() != 0),
            r is Err <==> pager@.len() < HEADER_SIZE,
    {
        let header = match pager.read_at(0, HEADER_SIZE) {
            Err(()) => {
                return Err(BtError::Corrupt);
            },
            Ok(b) => b,
        };
        let ptr = crate::bytes::read_u64_be(&header, 0);
        proof {
            assert(header@.subrange(0, HEADER_SIZE as int) =~= header@);
            assert(header@ == pager@.subrange(0, HEADER_SIZE as int));
        }
        if ptr == 0 {
            Ok(BTree { root: None })
        } else {
            Ok(BTree { root: Some(ptr) })
        }
    }

    /// Inserts `key` with `value`, overwriting the value of an equal key.
    /// The new root offset is committed to the header. Fails exactly when
    /// the pair is too large for a node page, or the image cannot grow;
    /// a failed operation leaves the committed state unchanged.
    pub fn insert(&mut self, key: Vec<u8>, value: Vec<u8>, pager: &mut Pager) -> (r: Result<
        (),
        BtError,
    >)
        requires
            old(self).wf(old(pager)@),
        ensures
            r is Ok ==> {
                &&& final(self).wf(final(pager)@)
                &&& final(self).committed(final(pager)@)
                &&& final(self).as_kvs(final(pager)@) == kvs_insert(
                    old(self).as_kvs(old(pager)@),
                    key@,
                    value@,
                )
            },
            r is Ok && (old(self).root is None || (spec_node_at(
                old(pager)@,
                old(self).root.unwrap(),
            ) matches Some(rn) && rn.leaf && rn.keys.len() < MAX_KEYS)) ==> {
                &&& final(self).root is Some
                &&& spec_node_at(final(pager)@, final(self).root.unwrap()) matches Some(m)
                    && m.leaf
            },
            r is Err ==> {
                &&& *final(self) == *old(self)
                &&& final(self).wf(final(pager)@)
                &&& final(self).as_kvs(final(pager)@) == old(self).as_kvs(old(pager)@)
                &&& spec_root_pointer(final(pager)@) == spec_root_pointer(old(pager)@)
            },
            r == Err::<(), BtError>(BtError::TooLarge) <==> key@.len() + value@.len() > KV_LIMIT,
            r is Err ==> r == Err::<(), BtError>(BtError::TooLarge) || (r == Err::<(), BtError>(
                BtError::Full,
            ) && final(pager)@.len() + PAGE_SIZE > usize::MAX),
    {
        let ghost d0 = pager@;
        proof {
            assert(pager@.subrange(0, pager@.len() as int) =~= pager@);
        }
        if key.len() > KV_LIMIT || value.len() > KV_LIMIT - key.len() {
            proof {
                lemma_tree_frame(*self, d0, pager@);
            }
            return Err(BtError::TooLarge);
        }
        match self.root {
            None => {
                let mut root_node = Node::new(true);
                proof {
                    assert(node_wf_in(d0, root_node@, 0));
                }
                let root_offset = match root_node.insert_non_full(key, value, pager, Ghost(0)) {
                    Err(e) => {
                        proof {
                            lemma_extends_agree(pager@, d0);
                            lemma_tree_frame(*self, d0, pager@);
                        }
                        return Err(e);
                    },
                    Ok(o) => o,
                };
                let ghost d1 = pager@;
                self.root = Some(root_offset);
                pager.update_root_offset(root_offset);
                proof {
                    lemma_header_write_agree(pager@, d1);
                    lemma_subtree_frame(d1, pager@, root_offset, 0);
                    lemma_node_at_frame(d1, pager@, root_offset);
                    assert(self.wf(pager@)) by {
                        assert(subtree_wf(pager@, root_offset, 0));
                    }
                    assert(BTree::height_at(pager@, root_offset) == 0) by {
                        assert(subtree_wf(pager@, root_offset, 0));
                        lemma_height_unique(
                            pager@,
                            root_offset,
                            BTree::height_at(pager@, root_offset),
                            0,
                        );
                    }
                    assert(node_kvs_in(d0, Node::new_leaf_view(), 0) =~= Seq::<
                        (Seq<u8>, Seq<u8>),
                    >::empty()) by {
                        assert(zip_kvs(Seq::empty(), Seq::empty()) =~= Seq::<
                            (Seq<u8>, Seq<u8>),
                        >::empty());
                    }
                    assert(self.as_kvs(pager@) == kvs_insert(Seq::empty(), key@, value@));
                }
                Ok(())
            },
            Some(root_id) => {
                let ghost h = choose|hh: nat|
                    subtree_wf(d0, root_id, hh) && spec_node_at(d0, root_id).unwrap().keys.len()
                        >= 1;
                proof {
                    assert(subtree_wf(d0, root_id, h) && spec_node_at(
                        d0,
                        root_id,
                    ).unwrap().keys.len() >= 1);
                }
                let root_node = match Node::load(root_id, pager) {
                    Err(_) => {
                        proof {
                            assert(false);
                        }
                        return Err(BtError::Corrupt);
                    },
                    Ok(n) => n,
                };
                let ghost old_kvs = node_kvs_in(d0, root_node@, h);
                proof {
                    assert(old(self).as_kvs(d0) == old_kvs) by {
                        lemma_height_unique(d0, root_id, BTree::height_at(d0, root_id), h);
                    }
                }
                if root_node.keys.len() == MAX_KEYS {
                    // the root is full: a fresh internal root adopts it,
                    // and the insert splits it on the way down
                    let mut new_root = Node::new(false);
                    new_root.children.push(root_id);
                    proof {
                        assert(new_root@.children =~= seq![root_id]);
                        assert(node_wf_in(d0, new_root@, (h + 1) as nat)) by {
                            assert(new_root@.children[0] == root_id);
                            assert(min_filled(d0, root_id));
                        }
                        assert(node_kvs_in(d0, new_root@, (h + 1) as nat) == subtree_kvs(
                            d0,
                            root_id,
                            h,
                        ));
                        assert(subtree_kvs(d0, root_id, h) == old_kvs);
                    }
                    let root_offset = match new_root.insert_non_full(
                        key,
                        value,
                        pager,
                        Ghost((h + 1) as nat),
                    ) {
                        Err(e) => {
                            proof {
                                lemma_extends_agree(pager@, d0);
                                lemma_tree_frame(*self, d0, pager@);
                            }
                            return Err(e);
                        },
                        Ok(o) => o,
                    };
                    let ghost d1 = pager@;
                    self.root = Some(root_offset);
                    pager.update_root_offset(root_offset);
                    proof {
                        lemma_header_write_agree(pager@, d1);
                        lemma_subtree_frame(d1, pager@, root_offset, (h + 1) as nat);
                        lemma_node_at_frame(d1, pager@, root_offset);
                        assert(self.wf(pager@)) by {
                            assert(subtree_wf(pager@, root_offset, (h + 1) as nat));
                        }
                        assert(BTree::height_at(pager@, root_offset) == (h + 1) as nat) by {
                            assert(subtree_wf(pager@, root_offset, (h + 1) as nat));
                            lemma_height_unique(
                                pager@,
                                root_offset,
                                BTree::height_at(pager@, root_offset),
                                (h + 1) as nat,
                            );
                        }
                        assert(self.as_kvs(pager@) == kvs_insert(old_kvs, key@, value@));
                    }
                    Ok(())
                } else {
                    let mut root_node = root_node;
                    let root_offset = match root_node.insert_non_full(key, value, pager, Ghost(h)) {
                        Err(e) => {
                            proof {
                                lemma_extends_agree(pager@, d0);
                                lemma_tree_frame(*self, d0, pager@);
                            }
                            return Err(e);
                        },
                        Ok(o) => o,
                    };
                    let ghost d1 = pager@;
                    self.root = Some(root_offset);
                    pager.update_root_offset(root_offset);
                    proof {
                        lemma_header_write_agree(pager@, d1);
                        lemma_subtree_frame(d1, pager@, root_offset, h);
                        lemma_node_at_frame(d1, pager@, root_offset);
                        assert(self.wf(pager@)) by {
                            assert(subtree_wf(pager@, root_offset, h));
                        }
                        assert(BTree::height_at(pager@, root_offset) == h) by {
                            assert(subtree_wf(pager@, root_offset, h));
                            lemma_height_unique(
                                pager@,
                                root_offset,
                                BTree::height_at(pager@, root_offset),
                                h,
                            );
                        }
                        assert(self.as_kvs(pager@) == kvs_insert(old_kvs, key@, value@));
                    }
                    Ok(())
                }
            },
        }
    }
}

impl Node {
    /// The view of a fresh leaf.
    pub open spec fn new_leaf_view() -> NodeV {
        NodeV { keys: Seq::empty(), values: Seq::empty(), children: Seq::empty(), leaf: true }
    }
}

/// Nothing a mutation appends, and no header rewrite, disturbs a tree
/// whose root page already stood in the image.
pub proof fn lemma_tree_frame(t: BTree, d1: Seq<u8>, d2: Seq<u8>)
    requires
        t.wf(d1),
        agree_past_header(d2, d1),
    ensures
        t.wf(d2),
        t.as_kvs(d2) == t.as_kvs(d1),
{
    match t.root {
        None => {
            assert(t.as_kvs(d2) =~= t.as_kvs(d1));
        },
        Some(r) => {
            let h1 = choose|h: nat|
                subtree_wf(d1, r, h) && spec_node_at(d1, r).unwrap().keys.len() >= 1;
            assert(subtree_wf(d1, r, h1) && spec_node_at(d1, r).unwrap().keys.len() >= 1);
            lemma_subtree_frame(d1, d2, r, h1);
            lemma_node_at_frame(d1, d2, r);
            assert(t.wf(d2));
            lemma_height_unique(d1, r, BTree::height_at(d1, r), h1);
            lemma_height_unique(d2, r, BTree::height_at(d2, r), h1);
        },
    }
}

impl Node {
    /// The in-order predecessor entry under this node: the last entry of
    /// its rightmost leaf.
    fn get_predecessor(&self, pager: &Pager, Ghost(h): Ghost<nat>) -> (r: Result<
        (Vec<u8>, Vec<u8>),
        BtError,
    >)
        requires
            node_wf_in(pager@, self@, h),
            self@.keys.len() >= 1,
        ensures
            r is Ok,
            r matches Ok(p) ==> {
                &&& node_kvs_in(pager@, self@, h).len() >= 1
                &&& (p.0@, p.1@) == node_kvs_in(pager@, self@, h).last()
                &&& pair_fits(p.0@, p.1@)
            },
        decreases h,
    {
        if self.is_leaf {
            let k = clone_bytes(&self.keys[self.keys.len() - 1]);
            let v = clone_bytes(&self.values[self.values.len() - 1]);
            proof {
                let z = zip_kvs(self@.keys, self@.values);
                assert(z.last() == (self@.keys.last(), self@.values.last()));
                assert(self@.keys.last() == self.keys@[self.keys@.len() - 1]@);
                assert(self@.values.last() == self.values@[self.values@.len() - 1]@);
                assert(pair_fits(self@.keys.last(), self@.values.last()));
            }
            return Ok((k, v));
        }
        proof {
            crate::rebalance::lemma_last_of_kvs(pager@, self@, h);
            assert(subtree_wf(pager@, self@.children[self@.keys.len() as int], (h - 1) as nat));
        }
        let child = match Node::load(self.children[self.children.len() - 1], pager) {
            Err(_) => {
                proof {
                    assert(false);
                }
                return Err(BtError::Corrupt);
            },
            Ok(c) => c,
        };
        proof {
            assert(self@.children[self@.keys.len() as int] == self.children@[self.children@.len()
                - 1]);
            assert(node_wf_in(pager@, child@, (h - 1) as nat));
            assert(child@.keys.len() >= MIN_KEYS) by {
                assert(min_filled(pager@, self@.children[self@.keys.len() as int]));
            }
        }
        child.get_predecessor(pager, Ghost((h - 1) as nat))
    }

    /// The in-order successor entry under this node: the first entry of
    /// its leftmost leaf.
    fn get_successor(&self, pager: &Pager, Ghost(h): Ghost<nat>) -> (r: Result<
        (Vec<u8>, Vec<u8>),
        BtError,
    >)
        requires
            node_wf_in(pager@, self@, h),
            self@.keys.len() >= 1,
        ensures
            r is Ok,
            r matches Ok(p) ==> {
                &&& node_kvs_in(pager@, self@, h).len() >= 1
                &&& (p.0@, p.1@) == node_kvs_in(pager@, self@, h).first()
                &&& pair_fits(p.0@, p.1@)
            },
        decreases h,
    {
        if self.is_leaf {
            let k = clone_bytes(&self.keys[0]);
            let v = clone_bytes(&self.values[0]);
            proof {
                let z = zip_kvs(self@.keys, self@.values);
                assert(z.first() == (self@.keys.first(), self@.values.first()));
                assert(self@.keys.first() == self.keys@[0]@);
                assert(self@.values.first() == self.values@[0]@);
                assert(pair_fits(self@.keys[0], self@.values[0]));
            }
            return Ok((k, v));
        }
        proof {
            crate::rebalance::lemma_first_of_kvs(pager@, self@, h);
            assert(subtree_wf(pager@, self@.children[0], (h - 1) as nat));
        }
        let child = match Node::load(self.children[0], pager) {
            Err(_) => {
                proof {
                    assert(false);
                }
                return Err(BtError::Corrupt);
            },
            Ok(c) => c,
        };
        proof {
            assert(node_wf_in(pager@, child@, (h - 1) as nat));
            assert(child@.keys.len() >= MIN_KEYS) by {
                assert(min_filled(pager@, self@.children[0]));
            }
        }
        child.get_successor(pager, Ghost((h - 1) as nat))
    }

    /// Merges the children at `idx` and `idx + 1` with the separating
    /// entry pulled down between them. The node's contents is unchanged;
    /// the merged child is written at a fresh offset and replaces both.
    #[verifier::rlimit(100)]
    #[verifier::spinoff_prover]
    fn merge(&mut self, idx: usize, pager: &mut Pager, Ghost(h): Ghost<nat>) -> (r: Result<
        (),
        BtError,
    >)
        requires
            node_wf_in(old(pager)@, old(self)@, h),
            !old(self)@.leaf,
            idx < old(self)@.keys.len(),
            spec_node_at(old(pager)@, old(self)@.children[idx as int]).unwrap().keys.len()
                + spec_node_at(old(pager)@, old(self)@.children[idx + 1]).unwrap().keys.len() + 1
                <= MAX_KEYS,
            old(pager)@.len() >= HEADER_SIZE,
        ensures
            extends(final(pager)@, old(pager)@),
            r is Ok ==> {
                &&& node_wf_in(final(pager)@, final(self)@, h)
                &&& node_kvs_in(final(pager)@, final(self)@, h) == node_kvs_in(
                    old(pager)@,
                    old(self)@,
                    h,
                )
                &&& final(self)@.keys == old(self)@.keys.remove(idx as int)
                &&& final(self)@.values == old(self)@.values.remove(idx as int)
                &&& final(self)@.children.len() == old(self)@.children.len() - 1
                &&& final(self)@.leaf == false
                &&& spec_node_at(final(pager)@, final(self)@.children[idx as int]) matches Some(m)
                    && m.keys.len() == spec_node_at(
                    old(pager)@,
                    old(self)@.children[idx as int],
                ).unwrap().keys.len() + spec_node_at(
                    old(pager)@,
                    old(self)@.children[idx + 1],
                ).unwrap().keys.len() + 1
            },
            r is Err ==> r == Err::<(), BtError>(BtError::Full) && final(pager)@.len() + PAGE_SIZE
                > usize::MAX,
    {
        let ghost d0 = pager@;
        let ghost n = old(self)@;
        let ghost hc = (h - 1) as nat;
        proof {
            assert(pager@.subrange(0, pager@.len() as int) =~= pager@);
            assert(subtree_wf(d0, n.children[idx as int], hc));
            assert(subtree_wf(d0, n.children[idx + 1], hc));
        }
        let mut left = match Node::load(self.children[idx], pager) {
            Err(_) => {
                proof {
                    assert(false);
                }
                return Err(BtError::Corrupt);
            },
            Ok(c) => c,
        };
        let mut right_node = match Node::load(self.children[idx + 1], pager) {
            Err(_) => {
                proof {
                    assert(false);
                }
                return Err(BtError::Corrupt);
            },
            Ok(c) => c,
        };
        let ghost lv = left@;
        let ghost rv = right_node@;
        proof {
            assert(node_wf_in(d0, lv, hc));
            assert(node_wf_in(d0, rv, hc));
            assert(lv.leaf == rv.leaf);
            assert(all_below(node_kvs_in(d0, lv, hc), n.keys[idx as int]));
            assert(all_above(node_kvs_in(d0, rv, hc), n.keys[idx as int]));
            assert(pair_fits(n.keys[idx as int], n.values[idx as int]));
            crate::rebalance::lemma_merge_node(
                d0,
                lv,
                rv,
                n.keys[idx as int],
                n.values[idx as int],
                hc,
            );
        }
        let mk = self.keys.remove(idx);
        let mv = self.values.remove(idx);
        left.keys.push(mk);
        left.values.push(mv);
        left.keys.append(&mut right_node.keys);
        left.values.append(&mut right_node.values);
        if !left.is_leaf {
            left.children.append(&mut right_node.children);
        }
        proof {
            let g = crate::rebalance::merged_node(lv, rv, n.keys[idx as int], n.values[idx as int]);
            assert(left@.keys =~= g.keys);
            assert(left@.values =~= g.values);
            assert(left@.children =~= g.children);
            assert(left@ == g);
            assert(self@.keys =~= n.keys.remove(idx as int));
            assert(self@.values =~= n.values.remove(idx as int));
        }
        let moff = match left.save(pager) {
            Err(e) => {
                return Err(e);
            },
            Ok(o) => o,
        };
        let ghost d1 = pager@;
        self.children[idx] = moff;
        self.children.remove(idx + 1);
        proof {
            lemma_extends_agree(d1, d0);
            assert(self@.children =~= n.children.update(idx as int, moff).remove(idx + 1));
            let g = crate::rebalance::merged_node(lv, rv, n.keys[idx as int], n.values[idx as int]);
            lemma_node_in_frame(d0, d1, g, hc);
            assert(subtree_wf(d1, moff, hc));
            assert(min_filled(d1, moff));
            assert(subtree_kvs(d1, moff, hc) == node_kvs_in(d0, g, hc));
            crate::rebalance::lemma_merge_update(d0, d1, n, self@, h, idx as int, moff);
        }
        Ok(())
    }

    /// Moves the last entry of the left sibling up into this node and the
    /// separating entry down onto the front of the child at `idx`. The
    /// node's contents is unchanged.
    #[verifier::rlimit(100)]
    #[verifier::spinoff_prover]
    fn borrow_from_prev(&mut self, idx: usize, pager: &mut Pager, Ghost(h): Ghost<nat>) -> (r:
        Result<(), BtError>)
        requires
            node_wf_in(old(pager)@, old(self)@, h),
            !old(self)@.leaf,
            1 <= idx < old(self)@.children.len(),
            spec_node_at(old(pager)@, old(self)@.children[idx - 1]).unwrap().keys.len()
                >= MIN_DEGREE,
            spec_node_at(old(pager)@, old(self)@.children[idx as int]).unwrap().keys.len()
                < MAX_KEYS,
            old(pager)@.len() >= HEADER_SIZE,
        ensures
            extends(final(pager)@, old(pager)@),
            r is Ok ==> {
                &&& node_wf_in(final(pager)@, final(self)@, h)
                &&& node_kvs_in(final(pager)@, final(self)@, h) == node_kvs_in(
                    old(pager)@,
                    old(self)@,
                    h,
                )
                &&& final(self)@.keys.len() == old(self)@.keys.len()
                &&& final(self)@.children.len() == old(self)@.children.len()
                &&& final(self)@.leaf == false
                &&& (forall|j: int|
                    0 <= j < old(self)@.keys.len() && j != idx - 1 ==> final(self)@.keys[j] == old(
                    self,
                )@.keys[j])
                &&& lex_lt(final(self)@.keys[idx - 1], old(self)@.keys[idx - 1])
                &&& spec_node_at(final(pager)@, final(self)@.children[idx as int]) matches Some(m)
                    && m.keys.len() == spec_node_at(
                    old(pager)@,
                    old(self)@.children[idx as int],
                ).unwrap().keys.len() + 1
            },
            r is Err ==> r == Err::<(), BtError>(BtError::Full) && final(pager)@.len() + PAGE_SIZE
                > usize::MAX,
    {
        let ghost d0 = pager@;
        let ghost n = old(self)@;
        let ghost hc = (h - 1) as nat;
        proof {
            assert(pager@.subrange(0, pager@.len() as int) =~= pager@);
            assert(subtree_wf(d0, n.children[idx - 1], hc));
            assert(subtree_wf(d0, n.children[idx as int], hc));
        }
        let mut child = match Node::load(self.children[idx], pager) {
            Err(_) => {
                proof {
                    assert(false);
                }
                return Err(BtError::Corrupt);
            },
            Ok(c) => c,
        };
        let mut sib = match Node::load(self.children[idx - 1], pager) {
            Err(_) => {
                proof {
                    assert(false);
                }
                return Err(BtError::Corrupt);
            },
            Ok(c) => c,
        };
        let ghost cv = child@;
        let ghost sv_n = sib@;
        proof {
            assert(node_wf_in(d0, cv, hc));
            assert(node_wf_in(d0, sv_n, hc));
            assert(cv.leaf == sv_n.leaf);
        }
        let sk = match sib.keys.pop() {
            None => {
                proof {
                    assert(false);
                }
                return Err(BtError::Corrupt);
            },
            Some(x) => x,
        };
        let sv = match sib.values.pop() {
            None => {
                proof {
                    assert(false);
                }
                return Err(BtError::Corrupt);
            },
            Some(x) => x,
        };
        let pk = clone_bytes(&self.keys[idx - 1]);
        let pv = clone_bytes(&self.values[idx - 1]);
        child.keys.insert(0, pk);
        child.values.insert(0, pv);
        let ghost sc: u64 = if sv_n.leaf {
            0u64
        } else {
            sv_n.children.last()
        };
        if !child.is_leaf {
            let sc_ptr = match sib.children.pop() {
                None => {
                    proof {
                        assert(false);
                    }
                    return Err(BtError::Corrupt);
                },
                Some(x) => x,
            };
            child.children.insert(0, sc_ptr);
            proof {
                assert(sc_ptr == sc);
            }
        }
        proof {
            assert(sib@.keys =~= crate::rebalance::popped_last(sv_n).keys);
            assert(sib@.values =~= crate::rebalance::popped_last(sv_n).values);
            assert(sib@.children =~= crate::rebalance::popped_last(sv_n).children);
            assert(sib@ == crate::rebalance::popped_last(sv_n));
            let g = crate::rebalance::pushed_front(
                cv,
                n.keys[idx - 1],
                n.values[idx - 1],
                sc,
            );
            assert(child@.keys =~= g.keys);
            assert(child@.values =~= g.values);
            assert(child@.children =~= g.children);
            assert(child@ == g);
            // both rewritten nodes encode: they are well-formed in memory
            crate::model::lemma_node_kvs_sorted(d0, sv_n, hc);
            crate::rebalance::lemma_pop_last(d0, sv_n, hc);
            if !cv.leaf {
                let skvs = node_kvs_in(d0, sv_n, hc);
                let pkvs = node_kvs_in(d0, crate::rebalance::popped_last(sv_n), hc);
                let sckvs = subtree_kvs(d0, sc, (hc - 1) as nat);
                assert(all_below(sckvs, n.keys[idx - 1])) by {
                    assert(all_below(skvs, n.keys[idx - 1]));
                    assert(skvs == pkvs + seq![(sv_n.keys.last(), sv_n.values.last())] + sckvs);
                    crate::model::lemma_bounds_split(
                        pkvs + seq![(sv_n.keys.last(), sv_n.values.last())],
                        sckvs,
                        n.keys[idx - 1],
                    );
                }
            }
            assert(all_above(node_kvs_in(d0, cv, hc), n.keys[idx - 1]));
            assert(pair_fits(n.keys[idx - 1], n.values[idx - 1]));
            crate::rebalance::lemma_push_front(
                d0,
                cv,
                hc,
                n.keys[idx - 1],
                n.values[idx - 1],
                sc,
            );
        }
        let coff = match child.save(pager) {
            Err(e) => {
                return Err(e);
            },
            Ok(o) => o,
        };
        let ghost d1 = pager@;
        let soff = match sib.save(pager) {
            Err(e) => {
                proof {
                    assert(pager@.subrange(0, pager@.len() as int) =~= pager@);
                    lemma_extends_trans(pager@, d1, d0);
                }
                return Err(e);
            },
            Ok(o) => o,
        };
        let ghost d2 = pager@;
        self.keys[idx - 1] = sk;
        self.values[idx - 1] = sv;
        self.children[idx - 1] = soff;
        self.children[idx] = coff;
        proof {
            lemma_extends_trans(d2, d1, d0);
            lemma_extends_agree(d2, d0);
            lemma_node_at_frame(d1, d2, coff);
            assert(sk@ == sv_n.keys.last());
            assert(sv@ == sv_n.values.last());
            assert(self@.keys =~= n.keys.update(idx - 1, sv_n.keys.last()));
            assert(self@.values =~= n.values.update(idx - 1, sv_n.values.last()));
            assert(self@.children =~= n.children.update(idx - 1, soff).update(idx as int, coff));
            crate::rebalance::lemma_rotate_prev(
                d0,
                d2,
                n,
                self@,
                h,
                idx as int,
                soff,
                coff,
                sv_n,
                cv,
                sc,
            );
            assert(lex_lt(self@.keys[idx - 1], n.keys[idx - 1])) by {
                let skvs = node_kvs_in(d0, sv_n, hc);
                crate::rebalance::lemma_key_in_kvs(d0, sv_n, hc, sv_n.keys.len() - 1);
                let i = choose|i: int|
                    0 <= i < skvs.len() && #[trigger] skvs[i] == (
                    sv_n.keys[sv_n.keys.len() - 1],
                    sv_n.values[sv_n.keys.len() - 1],
                    );
                assert(all_below(skvs, n.keys[idx - 1]));
                assert(lex_lt(skvs[i].0, n.keys[idx - 1]));
            }
        }
        Ok(())
    }

    /// Moves the first entry of the right sibling up into this node and
    /// the separating entry down onto the back of the child at `idx`. The
    /// node's contents is unchanged.
    #[verifier::rlimit(100)]
    #[verifier::spinoff_prover]
    fn borrow_from_next(&mut self, idx: usize, pager: &mut Pager, Ghost(h): Ghost<nat>) -> (r:
        Result<(), BtError>)
        requires
            node_wf_in(old(pager)@, old(self)@, h),
            !old(self)@.leaf,
            idx < old(self)@.keys.len(),
            spec_node_at(old(pager)@, old(self)@.children[idx + 1]).unwrap().keys.len()
                >= MIN_DEGREE,
            spec_node_at(old(pager)@, old(self)@.children[idx as int]).unwrap().keys.len()
                < MAX_KEYS,
            old(pager)@.len() >= HEADER_SIZE,
        ensures
            extends(final(pager)@, old(pager)@),
            r is Ok ==> {
                &&& node_wf_in(final(pager)@, final(self)@, h)
                &&& node_kvs_in(final(pager)@, final(self)@, h) == node_kvs_in(
                    old(pager)@,
                    old(self)@,
                    h,
                )
                &&& final(self)@.keys.len() == old(self)@.keys.len()
                &&& final(self)@.children.len() == old(self)@.children.len()
                &&& final(self)@.leaf == false
                &&& (forall|j: int|
                    0 <= j < old(self)@.keys.len() && j != idx ==> final(self)@.keys[j] == old(
                    self,
                )@.keys[j])
                &&& lex_lt(old(self)@.keys[idx as int], final(self)@.keys[idx as int])
                &&& spec_node_at(final(pager)@, final(self)@.children[idx as int]) matches Some(m)
                    && m.keys.len() == spec_node_at(
                    old(pager)@,
                    old(self)@.children[idx as int],
                ).unwrap().keys.len() + 1
            },
            r is Err ==> r == Err::<(), BtError>(BtError::Full) && final(pager)@.len() + PAGE_SIZE
                > usize::MAX,
    {
        let ghost d0 = pager@;
        let ghost n = old(self)@;
        let ghost hc = (h - 1) as nat;
        proof {
            assert(pager@.subrange(0, pager@.len() as int) =~= pager@);
            assert(subtree_wf(d0, n.children[idx as int], hc));
            assert(subtree_wf(d0, n.children[idx + 1], hc));
        }
        let mut child = match Node::load(self.children[idx], pager) {
            Err(_) => {
                proof {
                    assert(false);
                }
                return Err(BtError::Corrupt);
            },
            Ok(c) => c,
        };
        let mut sib = match Node::load(self.children[idx + 1], pager) {
            Err(_) => {
                proof {
                    assert(false);
                }
                return Err(BtError::Corrupt);
            },
            Ok(c) => c,
        };
        let ghost cv = child@;
        let ghost sv_n = sib@;
        proof {
            assert(node_wf_in(d0, cv, hc));
            assert(node_wf_in(d0, sv_n, hc));
            assert(cv.leaf == sv_n.leaf);
        }
        let sk = sib.keys.remove(0);
        let sv = sib.values.remove(0);
        let pk = clone_bytes(&self.keys[idx]);
        let pv = clone_bytes(&self.values[idx]);
        child.keys.push(pk);
        child.values.push(pv);
        let ghost sc: u64 = if sv_n.leaf {
            0u64
        } else {
            sv_n.children.first()
        };
        if !child.is_leaf {
            let sc_ptr = sib.children.remove(0);
            child.children.push(sc_ptr);
            proof {
                assert(sc_ptr == sc);
            }
        }
        proof {
            assert(sib@.keys =~= crate::rebalance::popped_first(sv_n).keys);
            assert(sib@.values =~= crate::rebalance::popped_first(sv_n).values);
            assert(sib@.children =~= crate::rebalance::popped_first(sv_n).children);
            assert(sib@ == crate::rebalance::popped_first(sv_n));
            let g = crate::rebalance::pushed_back(cv, n.keys[idx as int], n.values[idx as int], sc);
            assert(child@.keys =~= g.keys);
            assert(child@.values =~= g.values);
            assert(child@.children =~= g.children);
            assert(child@ == g);
            crate::model::lemma_node_kvs_sorted(d0, sv_n, hc);
            crate::rebalance::lemma_pop_first(d0, sv_n, hc);
            if !cv.leaf {
                let skvs = node_kvs_in(d0, sv_n, hc);
                let pkvs = node_kvs_in(d0, crate::rebalance::popped_first(sv_n), hc);
                let sckvs = subtree_kvs(d0, sc, (hc - 1) as nat);
                assert(all_above(sckvs, n.keys[idx as int])) by {
                    assert(all_above(skvs, n.keys[idx as int]));
                    assert(skvs == sckvs + seq![(sv_n.keys.first(), sv_n.values.first())] + pkvs);
                    assert(sckvs + (seq![(sv_n.keys.first(), sv_n.values.first())] + pkvs)
                        =~= skvs);
                    crate::model::lemma_bounds_split(
                        sckvs,
                        seq![(sv_n.keys.first(), sv_n.values.first())] + pkvs,
                        n.keys[idx as int],
                    );
                }
            }
            assert(all_below(node_kvs_in(d0, cv, hc), n.keys[idx as int]));
            assert(pair_fits(n.keys[idx as int], n.values[idx as int]));
            crate::rebalance::lemma_push_back(
                d0,
                cv,
                hc,
                n.keys[idx as int],
                n.values[idx as int],
                sc,
            );
        }
        let coff = match child.save(pager) {
            Err(e) => {
                return Err(e);
            },
            Ok(o) => o,
        };
        let ghost d1 = pager@;
        let soff = match sib.save(pager) {
            Err(e) => {
                proof {
                    assert(pager@.subrange(0, pager@.len() as int) =~= pager@);
                    lemma_extends_trans(pager@, d1, d0);
                }
                return Err(e);
            },
            Ok(o) => o,
        };
        let ghost d2 = pager@;
        self.keys[idx] = sk;
        self.values[idx] = sv;
        self.children[idx] = coff;
        self.children[idx + 1] = soff;
        proof {
            lemma_extends_trans(d2, d1, d0);
            lemma_extends_agree(d2, d0);
            lemma_node_at_frame(d1, d2, coff);
            assert(sk@ == sv_n.keys.first());
            assert(sv@ == sv_n.values.first());
            assert(self@.keys =~= n.keys.update(idx as int, sv_n.keys.first()));
            assert(self@.values =~= n.values.update(idx as int, sv_n.values.first()));
            assert(self@.children =~= n.children.update(idx as int, coff).update(idx + 1, soff));
            crate::rebalance::lemma_rotate_next(
                d0,
                d2,
                n,
                self@,
                h,
                idx as int,
                coff,
                soff,
                cv,
                sv_n,
                sc,
            );
            assert(lex_lt(n.keys[idx as int], self@.keys[idx as int])) by {
                let skvs = node_kvs_in(d0, sv_n, hc);
                crate::rebalance::lemma_key_in_kvs(d0, sv_n, hc, 0);
                let i = choose|i: int|
                    0 <= i < skvs.len() && #[trigger] skvs[i] == (sv_n.keys[0], sv_n.values[0]);
                assert(all_above(skvs, n.keys[idx as int]));
                assert(lex_lt(n.keys[idx as int], skvs[i].0));
            }
        }
        Ok(())
    }

    /// Refills the child at `idx` — where the search for `key` routes —
    /// to at least the minimum degree before a deletion descends into it:
    /// borrow from a sibling with keys to spare, else merge with one.
    /// Returns the index the key routes to afterwards (merging shifts
    /// positions). The node's contents is unchanged.
    #[verifier::rlimit(100)]
    #[verifier::spinoff_prover]
    fn fill(&mut self, idx: usize, key: &Vec<u8>, pager: &mut Pager, Ghost(h): Ghost<nat>) -> (r:
        Result<usize, BtError>)
        requires
            node_wf_in(old(pager)@, old(self)@, h),
            !old(self)@.leaf,
            idx < old(self)@.children.len(),
            is_rank(old(self)@, key@, idx as int),
            idx == old(self)@.keys.len() || old(self)@.keys[idx as int] != key@,
            spec_node_at(old(pager)@, old(self)@.children[idx as int]).unwrap().keys.len()
                == MIN_KEYS,
            old(self)@.keys.len() >= 1,
            old(pager)@.len() >= HEADER_SIZE,
        ensures
            extends(final(pager)@, old(pager)@),
            r matches Ok(j) ==> {
                &&& node_wf_in(final(pager)@, final(self)@, h)
                &&& node_kvs_in(final(pager)@, final(self)@, h) == node_kvs_in(
                    old(pager)@,
                    old(self)@,
                    h,
                )
                &&& final(self)@.leaf == false
                &&& j < final(self)@.children.len()
                &&& is_rank(final(self)@, key@, j as int)
                &&& (j == final(self)@.keys.len() || final(self)@.keys[j as int] != key@)
                &&& spec_node_at(final(pager)@, final(self)@.children[j as int]) matches Some(m)
                    && m.keys.len() >= MIN_DEGREE
                &&& final(self)@.keys.len() >= old(self)@.keys.len() - 1
            },
            r is Err ==> r == Err::<usize, BtError>(BtError::Full) && final(pager)@.len()
                + PAGE_SIZE > usize::MAX,
    {
        let ghost d0 = pager@;
        let ghost n = old(self)@;
        let ghost hc = (h - 1) as nat;
        proof {
            assert(pager@.subrange(0, pager@.len() as int) =~= pager@);
        }
        if idx > 0 {
            proof {
                assert(subtree_wf(d0, n.children[idx - 1], hc));
            }
            let sib = match Node::load(self.children[idx - 1], pager) {
                Err(_) => {
                    proof {
                        assert(false);
                    }
                    return Err(BtError::Corrupt);
                },
                Ok(c) => c,
            };
            if sib.keys.len() >= MIN_DEGREE {
                match self.borrow_from_prev(idx, pager, Ghost(h)) {
                    Err(e) => {
                        return Err(e);
                    },
                    Ok(()) => {},
                }
                proof {
                    assert(is_rank(self@, key@, idx as int)) by {
                        assert forall|j: int| 0 <= j < idx implies lex_lt(
                            #[trigger] self@.keys[j],
                            key@,
                        ) by {
                            if j == idx - 1 {
                                assert(lex_lt(self@.keys[idx - 1], n.keys[idx - 1]));
                                crate::bytes::lemma_lex_transitive(
                                    self@.keys[idx - 1],
                                    n.keys[idx - 1],
                                    key@,
                                );
                            } else {
                                assert(self@.keys[j] == n.keys[j]);
                            }
                        }
                        if idx < self@.keys.len() {
                            assert(self@.keys[idx as int] == n.keys[idx as int]);
                        }
                    }
                }
                return Ok(idx);
            }
            proof {
                assert(sib@.keys.len() >= MIN_KEYS) by {
                    assert(min_filled(d0, n.children[idx - 1]));
                }
                assert(sib@.keys.len() == MIN_KEYS);
            }
        }
        if idx < self.keys.len() {
            proof {
                assert(subtree_wf(d0, n.children[idx + 1], hc));
            }
            let sib = match Node::load(self.children[idx + 1], pager) {
                Err(_) => {
                    proof {
                        assert(false);
                    }
                    return Err(BtError::Corrupt);
                },
                Ok(c) => c,
            };
            if sib.keys.len() >= MIN_DEGREE {
                match self.borrow_from_next(idx, pager, Ghost(h)) {
                    Err(e) => {
                        return Err(e);
                    },
                    Ok(()) => {},
                }
                proof {
                    assert(is_rank(self@, key@, idx as int)) by {
                        assert forall|j: int| 0 <= j < idx implies lex_lt(
                            #[trigger] self@.keys[j],
                            key@,
                        ) by {
                            assert(self@.keys[j] == n.keys[j]);
                        }
                        assert(!lex_lt(self@.keys[idx as int], key@)) by {
                            assert(lex_lt(n.keys[idx as int], self@.keys[idx as int]));
                            assert(!lex_lt(n.keys[idx as int], key@));
                            lemma_lex_trichotomy(n.keys[idx as int], key@);
                            if lex_lt(self@.keys[idx as int], key@) {
                                assert(key@ == n.keys[idx as int] || lex_lt(
                                    key@,
                                    n.keys[idx as int],
                                ));
                                if key@ == n.keys[idx as int] {
                                    assert(false);
                                } else {
                                    crate::bytes::lemma_lex_transitive(
                                        self@.keys[idx as int],
                                        key@,
                                        n.keys[idx as int],
                                    );
                                    lemma_lex_trichotomy(
                                        self@.keys[idx as int],
                                        n.keys[idx as int],
                                    );
                                }
                            }
                        }
                    }
                    assert(self@.keys[idx as int] != key@) by {
                        assert(lex_lt(n.keys[idx as int], self@.keys[idx as int]));
                        assert(!lex_lt(n.keys[idx as int], key@));
                        lemma_lex_trichotomy(n.keys[idx as int], key@);
                        if self@.keys[idx as int] == key@ {
                            assert(lex_lt(n.keys[idx as int], key@));
                        }
                    }
                }
                return Ok(idx);
            }
            proof {
                assert(sib@.keys.len() >= MIN_KEYS) by {
                    assert(min_filled(d0, n.children[idx + 1]));
                }
                assert(sib@.keys.len() == MIN_KEYS);
            }
        }
        if idx < self.keys.len() {
            // merge with the right sibling
            match self.merge(idx, pager, Ghost(h)) {
                Err(e) => {
                    return Err(e);
                },
                Ok(()) => {},
            }
            proof {
                assert(is_rank(self@, key@, idx as int)) by {
                    assert forall|j: int| 0 <= j < idx implies lex_lt(
                        #[trigger] self@.keys[j],
                        key@,
                    ) by {
                        assert(self@.keys[j] == n.keys[j]);
                    }
                    if idx < self@.keys.len() {
                        assert(self@.keys[idx as int] == n.keys[idx + 1]);
                        assert(!lex_lt(n.keys[idx as int], key@));
                        lemma_lex_trichotomy(n.keys[idx as int], key@);
                        assert(lex_lt(n.keys[idx as int], n.keys[idx + 1]));
                        if lex_lt(n.keys[idx + 1], key@) {
                            if key@ == n.keys[idx as int] {
                                assert(false);
                            } else {
                                assert(lex_lt(key@, n.keys[idx as int]));
                                crate::bytes::lemma_lex_transitive(
                                    n.keys[idx + 1],
                                    key@,
                                    n.keys[idx as int],
                                );
                                lemma_lex_trichotomy(n.keys[idx + 1], n.keys[idx as int]);
                            }
                        }
                    }
                }
                assert(idx == self@.keys.len() || self@.keys[idx as int] != key@) by {
                    if idx < self@.keys.len() {
                        assert(self@.keys[idx as int] == n.keys[idx + 1]);
                        assert(!lex_lt(n.keys[idx as int], key@));
                        lemma_lex_trichotomy(n.keys[idx as int], key@);
                        if self@.keys[idx as int] == key@ {
                            assert(lex_lt(n.keys[idx as int], n.keys[idx + 1]));
                            assert(lex_lt(n.keys[idx as int], key@));
                        }
                    }
                }
            }
            Ok(idx)
        } else {
            // the last child: merge with the left sibling
            proof {
                assert(idx >= 1);
                assert(idx - 1 < n.keys.len());
            }
            match self.merge(idx - 1, pager, Ghost(h)) {
                Err(e) => {
                    return Err(e);
                },
                Ok(()) => {},
            }
            proof {
                assert(self@.keys.len() == n.keys.len() - 1);
                assert(idx - 1 == self@.keys.len());
                assert(is_rank(self@, key@, idx - 1)) by {
                    assert forall|j: int| 0 <= j < idx - 1 implies lex_lt(
                        #[trigger] self@.keys[j],
                        key@,
                    ) by {
                        assert(self@.keys[j] == n.keys[j]);
                    }
                }
            }
            Ok(idx - 1)
        }
    }
}

impl Node {
    /// Removes the entry at `idx` of this internal node: replace it by its
    /// in-order predecessor or successor when a neighbouring child can
    /// spare a key, else merge the two children and delete from the merge.
    /// The node's contents lose exactly that entry's key.
    #[verifier::rlimit(100)]
    #[verifier::spinoff_prover]
    fn delete_internal_node(&mut self, idx: usize, pager: &mut Pager, Ghost(h): Ghost<nat>) -> (r:
        Result<(), BtError>)
        requires
            node_wf_in(old(pager)@, old(self)@, h),
            !old(self)@.leaf,
            idx < old(self)@.keys.len(),
            old(pager)@.len() >= HEADER_SIZE,
        ensures
            extends(final(pager)@, old(pager)@),
            r is Ok ==> {
                &&& node_wf_in(final(pager)@, final(self)@, h)
                &&& node_kvs_in(final(pager)@, final(self)@, h) == kvs_remove(
                    node_kvs_in(old(pager)@, old(self)@, h),
                    old(self)@.keys[idx as int],
                )
                &&& final(self)@.keys.len() >= old(self)@.keys.len() - 1
                &&& final(self)@.leaf == false
            },
            r is Err ==> r == Err::<(), BtError>(BtError::Full) && final(pager)@.len() + PAGE_SIZE
                > usize::MAX,
        decreases h, 0nat,
    {
        let ghost d0 = pager@;
        let ghost n = old(self)@;
        let ghost hc = (h - 1) as nat;
        proof {
            assert(pager@.subrange(0, pager@.len() as int) =~= pager@);
            assert(subtree_wf(d0, n.children[idx as int], hc));
            assert(subtree_wf(d0, n.children[idx + 1], hc));
        }
        let mut left = match Node::load(self.children[idx], pager) {
            Err(_) => {
                proof {
                    assert(false);
                }
                return Err(BtError::Corrupt);
            },
            Ok(c) => c,
        };
        if left.keys.len() >= MIN_DEGREE {
            // replace the separator by its in-order predecessor
            let ghost lv = left@;
            proof {
                assert(node_wf_in(d0, lv, hc));
            }
            let pred = match left.get_predecessor(pager, Ghost(hc)) {
                Err(e) => {
                    return Err(e);
                },
                Ok(p) => p,
            };
            let (pk, pv) = pred;
            let ghost mid = subtree_kvs(d0, n.children[idx as int], hc);
            proof {
                assert((pk@, pv@) == mid.last());
                crate::model::lemma_subtree_sorted(d0, n.children[idx as int], hc);
            }
            match left.remove_key(&pk, pager, Ghost(hc)) {
                Err(e) => {
                    return Err(e);
                },
                Ok(()) => {},
            }
            let ghost d1 = pager@;
            proof {
                lemma_extends_agree(d1, d0);
                assert(node_kvs_in(d1, left@, hc) == kvs_remove(mid, pk@)) by {
                    crate::model::lemma_node_in_frame(d0, d1, lv, hc);
                }
                crate::kvs::lemma_remove_last(mid, pk@);
                assert(node_kvs_in(d1, left@, hc) == mid.drop_last());
            }
            let loff = match left.save(pager) {
                Err(e) => {
                    proof {
                        assert(pager@.subrange(0, pager@.len() as int) =~= pager@);
                        lemma_extends_trans(pager@, d1, d0);
                    }
                    return Err(e);
                },
                Ok(o) => o,
            };
            let ghost d2 = pager@;
            let pk2 = clone_bytes(&pk);
            self.keys[idx] = pk2;
            self.values[idx] = pv;
            self.children[idx] = loff;
            proof {
                lemma_extends_trans(d2, d1, d0);
                lemma_extends_agree(d2, d1);
                lemma_extends_agree(d2, d0);
                lemma_node_in_frame(d1, d2, left@, hc);
                assert(subtree_wf(d2, loff, hc));
                assert(subtree_kvs(d2, loff, hc) == mid.drop_last());
                assert(min_filled(d2, loff)) by {
                    assert(left@.keys.len() >= lv.keys.len() - 1);
                }
                assert(self@.keys =~= n.keys.update(idx as int, pk@));
                assert(self@.values =~= n.values.update(idx as int, pv@));
                assert(self@.children =~= n.children.update(idx as int, loff));
                crate::rebalance::lemma_replace_pred(
                    d0,
                    d2,
                    n,
                    self@,
                    h,
                    idx as int,
                    loff,
                    pk@,
                    pv@,
                );
            }
            return Ok(());
        }
        let mut rightc = match Node::load(self.children[idx + 1], pager) {
            Err(_) => {
                proof {
                    assert(false);
                }
                return Err(BtError::Corrupt);
            },
            Ok(c) => c,
        };
        if rightc.keys.len() >= MIN_DEGREE {
            // replace the separator by its in-order successor
            let ghost rv = rightc@;
            proof {
                assert(node_wf_in(d0, rv, hc));
            }
            let succ = match rightc.get_successor(pager, Ghost(hc)) {
                Err(e) => {
                    return Err(e);
                },
                Ok(p) => p,
            };
            let (sk, sv) = succ;
            let ghost midr = subtree_kvs(d0, n.children[idx + 1], hc);
            proof {
                assert((sk@, sv@) == midr.first());
                crate::model::lemma_subtree_sorted(d0, n.children[idx + 1], hc);
            }
            match rightc.remove_key(&sk, pager, Ghost(hc)) {
                Err(e) => {
                    return Err(e);
                },
                Ok(()) => {},
            }
            let ghost d1 = pager@;
            proof {
                lemma_extends_agree(d1, d0);
                assert(node_kvs_in(d1, rightc@, hc) == kvs_remove(midr, sk@)) by {
                    crate::model::lemma_node_in_frame(d0, d1, rv, hc);
                }
                assert(midr[0].0 == sk@);
                assert(kvs_remove(midr, sk@) == midr.drop_first());
            }
            let roff = match rightc.save(pager) {
                Err(e) => {
                    proof {
                        assert(pager@.subrange(0, pager@.len() as int) =~= pager@);
                        lemma_extends_trans(pager@, d1, d0);
                    }
                    return Err(e);
                },
                Ok(o) => o,
            };
            let ghost d2 = pager@;
            let sk2 = clone_bytes(&sk);
            self.keys[idx] = sk2;
            self.values[idx] = sv;
            self.children[idx + 1] = roff;
            proof {
                lemma_extends_trans(d2, d1, d0);
                lemma_extends_agree(d2, d1);
                lemma_extends_agree(d2, d0);
                lemma_node_in_frame(d1, d2, rightc@, hc);
                assert(subtree_wf(d2, roff, hc));
                assert(subtree_kvs(d2, roff, hc) == midr.drop_first());
                assert(min_filled(d2, roff)) by {
                    assert(rightc@.keys.len() >= rv.keys.len() - 1);
                }
                assert(self@.keys =~= n.keys.update(idx as int, sk@));
                assert(self@.values =~= n.values.update(idx as int, sv@));
                assert(self@.children =~= n.children.update(idx + 1, roff));
                crate::rebalance::lemma_replace_succ(
                    d0,
                    d2,
                    n,
                    self@,
                    h,
                    idx as int,
                    roff,
                    sk@,
                    sv@,
                );
            }
            return Ok(());
        }
        // both children at minimum occupancy: merge them around the
        // separator, then delete the key from the merged child
        let key_to_delete = clone_bytes(&self.keys[idx]);
        proof {
            assert(left@.keys.len() >= MIN_KEYS) by {
                assert(min_filled(d0, n.children[idx as int]));
            }
            assert(rightc@.keys.len() >= MIN_KEYS) by {
                assert(min_filled(d0, n.children[idx + 1]));
            }
        }
        match self.merge(idx, pager, Ghost(h)) {
            Err(e) => {
                return Err(e);
            },
            Ok(()) => {},
        }
        let ghost d1 = pager@;
        let ghost n1 = self@;
        proof {
            assert(is_rank(n1, key_to_delete@, idx as int)) by {
                assert forall|j: int| 0 <= j < idx implies lex_lt(
                    #[trigger] n1.keys[j],
                    key_to_delete@,
                ) by {
                    assert(n1.keys[j] == n.keys[j]);
                    assert(lex_lt(n.keys[j], n.keys[idx as int]));
                }
                if idx < n1.keys.len() {
                    assert(n1.keys[idx as int] == n.keys[idx + 1]);
                    assert(lex_lt(n.keys[idx as int], n.keys[idx + 1]));
                    lemma_lex_trichotomy(n.keys[idx + 1], n.keys[idx as int]);
                }
            }
            assert(idx == n1.keys.len() || n1.keys[idx as int] != key_to_delete@) by {
                if idx < n1.keys.len() {
                    assert(n1.keys[idx as int] == n.keys[idx + 1]);
                    assert(lex_lt(n.keys[idx as int], n.keys[idx + 1]));
                    lemma_lex_trichotomy(n.keys[idx as int], n.keys[idx + 1]);
                }
            }
            assert(subtree_wf(d1, n1.children[idx as int], hc));
        }
        let mut merged = match Node::load(self.children[idx], pager) {
            Err(_) => {
                proof {
                    assert(false);
                }
                return Err(BtError::Corrupt);
            },
            Ok(c) => c,
        };
        let ghost gv = merged@;
        proof {
            assert(node_wf_in(d1, gv, hc));
            assert(gv.keys.len() >= 1);
        }
        match merged.remove_key(&key_to_delete, pager, Ghost(hc)) {
            Err(e) => {
                proof {
                    lemma_extends_trans(pager@, d1, d0);
                }
                return Err(e);
            },
            Ok(()) => {},
        }
        let ghost d2 = pager@;
        let moff = match merged.save(pager) {
            Err(e) => {
                proof {
                    assert(pager@.subrange(0, pager@.len() as int) =~= pager@);
                    lemma_extends_trans(d2, d1, d0);
                    lemma_extends_trans(pager@, d2, d0);
                }
                return Err(e);
            },
            Ok(o) => o,
        };
        let ghost d3 = pager@;
        self.children[idx] = moff;
        proof {
            lemma_extends_trans(d2, d1, d0);
            lemma_extends_trans(d3, d2, d0);
            lemma_extends_agree(d2, d1);
            lemma_extends_agree(d3, d2);
            lemma_extends_trans(d3, d2, d1);
            lemma_extends_agree(d3, d1);
            lemma_node_in_frame(d2, d3, merged@, hc);
            assert(subtree_wf(d3, moff, hc));
            assert(min_filled(d3, moff)) by {
                assert(merged@.keys.len() >= gv.keys.len() - 1);
            }
            assert(subtree_kvs(d3, moff, hc) == kvs_remove(
                subtree_kvs(d1, n1.children[idx as int], hc),
                key_to_delete@,
            )) by {
                crate::model::lemma_node_in_frame(d1, d2, gv, hc);
            }
            assert(self@.children =~= n1.children.update(idx as int, moff));
            crate::rebalance::lemma_descend_remove(
                d1,
                d3,
                n1,
                self@,
                h,
                idx as int,
                moff,
                key_to_delete@,
            );
            assert(node_kvs_in(d1, n1, h) == node_kvs_in(d0, n, h));
        }
        Ok(())
    }

    /// Removes `key` from the subtree under this node; an absent key is a
    /// no-op. Any child descended into is first refilled to at least the
    /// minimum degree; rewritten children replace their old offsets. The
    /// subtree's contents lose exactly that key.
    #[verifier::rlimit(100)]
    #[verifier::spinoff_prover]
    fn remove_key(&mut self, key: &Vec<u8>, pager: &mut Pager, Ghost(h): Ghost<nat>) -> (r: Result<
        (),
        BtError,
    >)
        requires
            node_wf_in(old(pager)@, old(self)@, h),
            old(self)@.leaf || old(self)@.keys.len() >= 1,
            old(pager)@.len() >= HEADER_SIZE,
        ensures
            extends(final(pager)@, old(pager)@),
            r is Ok ==> {
                &&& node_wf_in(final(pager)@, final(self)@, h)
                &&& node_kvs_in(final(pager)@, final(self)@, h) == kvs_remove(
                    node_kvs_in(old(pager)@, old(self)@, h),
                    key@,
                )
                &&& final(self)@.keys.len() >= old(self)@.keys.len() - 1
                &&& final(self)@.leaf == old(self)@.leaf
            },
            r is Err ==> r == Err::<(), BtError>(BtError::Full) && final(pager)@.len() + PAGE_SIZE
                > usize::MAX,
        decreases h, 1nat,
    {
        let ghost d0 = pager@;
        let ghost n = old(self)@;
        proof {
            assert(pager@.subrange(0, pager@.len() as int) =~= pager@);
        }
        let i = self.find_rank(key);
        let mut found = false;
        if i < self.keys.len() {
            match bytes_cmp(&self.keys[i], key) {
                Cmp::Eq => {
                    found = true;
                    proof {
                        assert(self@.keys[i as int] == self.keys@[i as int]@);
                    }
                },
                _ => {
                    proof {
                        assert(self@.keys[i as int] == self.keys@[i as int]@);
                        lemma_lex_trichotomy(self@.keys[i as int], key@);
                    }
                },
            }
        }
        if found {
            if self.is_leaf {
                self.keys.remove(i);
                self.values.remove(i);
                proof {
                    assert(self@.keys =~= n.keys.remove(i as int));
                    assert(self@.values =~= n.values.remove(i as int));
                    crate::rebalance::lemma_leaf_remove(n, self@, d0, key@, i as int);
                }
                return Ok(());
            }
            return self.delete_internal_node(i, pager, Ghost(h));
        }
        if self.is_leaf {
            proof {
                let z = node_kvs_in(d0, n, h);
                assert forall|j: int| 0 <= j < z.len() implies #[trigger] z[j].0 != key@ by {
                    assert(z[j].0 == n.keys[j]);
                    if j < i as int {
                        lemma_lex_trichotomy(n.keys[j], key@);
                    } else {
                        assert(!lex_lt(n.keys[i as int], key@));
                        lemma_lex_trichotomy(n.keys[j], key@);
                        if n.keys[j] == key@ {
                            if j > i as int {
                                assert(lex_lt(n.keys[i as int], n.keys[j]));
                            }
                            assert(false);
                        }
                    }
                }
                crate::kvs::lemma_lookup_all_other(z, key@);
                crate::kvs::lemma_remove_absent(z, key@);
            }
            return Ok(());
        }
        // internal: refill the descent child first where it is minimal
        let ghost hc = (h - 1) as nat;
        proof {
            assert(subtree_wf(d0, n.children[i as int], hc));
        }
        let probe = match Node::load(self.children[i], pager) {
            Err(_) => {
                proof {
                    assert(false);
                }
                return Err(BtError::Corrupt);
            },
            Ok(c) => c,
        };
        let mut j = i;
        if probe.keys.len() < MIN_DEGREE {
            proof {
                assert(probe@.keys.len() >= MIN_KEYS) by {
                    assert(min_filled(d0, n.children[i as int]));
                }
                assert(probe@.keys.len() == MIN_KEYS);
            }
            j = match self.fill(i, key, pager, Ghost(h)) {
                Err(e) => {
                    return Err(e);
                },
                Ok(jj) => jj,
            };
        }
        let ghost d1 = pager@;
        let ghost n1 = self@;
        proof {
            lemma_extends_agree(d1, d0);
            assert(node_wf_in(d1, n1, h));
            assert(node_kvs_in(d1, n1, h) == node_kvs_in(d0, n, h)) by {
                if probe@.keys.len() >= MIN_DEGREE {
                    lemma_node_in_frame(d0, d1, n, h);
                }
            }
            assert(is_rank(n1, key@, j as int));
            assert(j == n1.keys.len() || n1.keys[j as int] != key@);
            assert(subtree_wf(d1, n1.children[j as int], hc));
            assert(spec_node_at(d1, n1.children[j as int]).unwrap().keys.len() >= MIN_DEGREE) by {
                if probe@.keys.len() >= MIN_DEGREE {
                    lemma_node_at_frame(d0, d1, n.children[i as int]);
                }
            }
        }
        let mut child = match Node::load(self.children[j], pager) {
            Err(_) => {
                proof {
                    assert(false);
                }
                return Err(BtError::Corrupt);
            },
            Ok(c) => c,
        };
        let ghost cv = child@;
        proof {
            assert(node_wf_in(d1, cv, hc));
            assert(cv.keys.len() >= MIN_DEGREE);
        }
        match child.remove_key(key, pager, Ghost(hc)) {
            Err(e) => {
                proof {
                    lemma_extends_trans(pager@, d1, d0);
                }
                return Err(e);
            },
            Ok(()) => {},
        }
        let ghost d2 = pager@;
        let noff = match child.save(pager) {
            Err(e) => {
                proof {
                    assert(pager@.subrange(0, pager@.len() as int) =~= pager@);
                    lemma_extends_trans(d2, d1, d0);
                    lemma_extends_trans(pager@, d2, d0);
                }
                return Err(e);
            },
            Ok(o) => o,
        };
        let ghost d3 = pager@;
        self.children[j] = noff;
        proof {
            lemma_extends_trans(d2, d1, d0);
            lemma_extends_trans(d3, d2, d0);
            lemma_extends_agree(d2, d1);
            lemma_extends_agree(d3, d2);
            lemma_extends_trans(d3, d2, d1);
            lemma_extends_agree(d3, d1);
            lemma_node_in_frame(d2, d3, child@, hc);
            assert(subtree_wf(d3, noff, hc));
            assert(spec_node_at(d3, noff).unwrap().keys.len() >= MIN_KEYS) by {
                assert(child@.keys.len() >= cv.keys.len() - 1);
            }
            assert(subtree_kvs(d3, noff, hc) == kvs_remove(
                subtree_kvs(d1, n1.children[j as int], hc),
                key@,
            )) by {
                crate::model::lemma_node_in_frame(d1, d2, cv, hc);
            }
            assert(self@.children =~= n1.children.update(j as int, noff));
            crate::rebalance::lemma_descend_remove(d1, d3, n1, self@, h, j as int, noff, key@);
        }
        Ok(())
    }
}

impl BTree {
    /// Removes `key` from the tree; an absent key is a no-op, not an
    /// error. The tree's contents lose exactly that key; the new root
    /// offset — or `0` when the tree is now empty — is committed to the
    /// header. Fails exactly when the image cannot grow; a failed
    /// operation leaves the committed state unchanged.
    #[verifier::rlimit(100)]
    #[verifier::spinoff_prover]
    pub fn delete(&mut self, key: &Vec<u8>, pager: &mut Pager) -> (r: Result<(), BtError>)
        requires
            old(self).wf(old(pager)@),
            old(self).committed(old(pager)@),
        ensures
            final(pager)@.len() >= old(pager)@.len(),
            r is Ok ==> {
                &&& final(self).wf(final(pager)@)
                &&& final(self).committed(final(pager)@)
                &&& final(self).as_kvs(final(pager)@) == kvs_remove(
                    old(self).as_kvs(old(pager)@),
                    key@,
                )
            },
            r is Err ==> {
                &&& r == Err::<(), BtError>(BtError::Full)
                &&& final(pager)@.len() + PAGE_SIZE > usize::MAX
                &&& *final(self) == *old(self)
                &&& old(self).wf(final(pager)@)
                &&& old(self).committed(final(pager)@)
                &&& old(self).as_kvs(final(pager)@) == old(self).as_kvs(old(pager)@)
            },
    {
        let ghost d0 = pager@;
        proof {
            assert(pager@.subrange(0, pager@.len() as int) =~= pager@);
        }
        match self.root {
            None => {
                proof {
                    assert(kvs_remove(Seq::<(Seq<u8>, Seq<u8>)>::empty(), key@)
                        =~= Seq::<(Seq<u8>, Seq<u8>)>::empty());
                }
                Ok(())
            },
            Some(root_id) => {
                let ghost h = choose|hh: nat|
                    subtree_wf(d0, root_id, hh) && spec_node_at(d0, root_id).unwrap().keys.len()
                        >= 1;
                proof {
                    assert(subtree_wf(d0, root_id, h) && spec_node_at(
                        d0,
                        root_id,
                    ).unwrap().keys.len() >= 1);
                }
                let mut root_node = match Node::load(root_id, pager) {
                    Err(_) => {
                        proof {
                            assert(false);
                        }
                        return Err(BtError::Corrupt);
                    },
                    Ok(nd) => nd,
                };
                let ghost old_kvs = node_kvs_in(d0, root_node@, h);
                proof {
                    assert(node_wf_in(d0, root_node@, h));
                    assert(old(self).as_kvs(d0) == old_kvs) by {
                        lemma_height_unique(d0, root_id, BTree::height_at(d0, root_id), h);
                    }
                }
                match root_node.remove_key(key, pager, Ghost(h)) {
                    Err(e) => {
                        proof {
                            lemma_extends_agree(pager@, d0);
                            lemma_tree_frame(*self, d0, pager@);
                        }
                        return Err(e);
                    },
                    Ok(()) => {},
                }
                let ghost d1 = pager@;
                proof {
                    lemma_extends_agree(d1, d0);
                    assert(node_kvs_in(d1, root_node@, h) == kvs_remove(old_kvs, key@));
                }
                if root_node.keys.len() == 0 {
                    if !root_node.is_leaf {
                        // the root lost its last key: promote its only child
                        let new_root_id = root_node.children[0];
                        proof {
                            assert(root_node@.children.len() == 1);
                            assert(subtree_wf(d1, new_root_id, (h - 1) as nat));
                            assert(spec_node_at(d1, new_root_id).unwrap().keys.len() >= 1) by {
                                assert(min_filled(d1, new_root_id));
                            }
                            assert(node_kvs_in(d1, root_node@, h) == subtree_kvs(
                                d1,
                                new_root_id,
                                (h - 1) as nat,
                            ));
                        }
                        self.root = Some(new_root_id);
                        pager.update_root_offset(new_root_id);
                        proof {
                            lemma_header_write_agree(pager@, d1);
                            lemma_subtree_frame(d1, pager@, new_root_id, (h - 1) as nat);
                            lemma_node_at_frame(d1, pager@, new_root_id);
                            assert(self.wf(pager@)) by {
                                assert(subtree_wf(pager@, new_root_id, (h - 1) as nat));
                            }
                            assert(BTree::height_at(pager@, new_root_id) == (h - 1) as nat) by {
                                assert(subtree_wf(pager@, new_root_id, (h - 1) as nat));
                                lemma_height_unique(
                                    pager@,
                                    new_root_id,
                                    BTree::height_at(pager@, new_root_id),
                                    (h - 1) as nat,
                                );
                            }
                            assert(self.as_kvs(pager@) == kvs_remove(old_kvs, key@));
                        }
                        Ok(())
                    } else {
                        // the tree is now empty
                        self.root = None;
                        pager.update_root_offset(0);
                        proof {
                            assert(node_kvs_in(d1, root_node@, h) =~= Seq::<
                                (Seq<u8>, Seq<u8>),
                            >::empty()) by {
                                assert(zip_kvs(root_node@.keys, root_node@.values).len() == 0);
                            }
                            assert(self.as_kvs(pager@) =~= kvs_remove(old_kvs, key@));
                        }
                        Ok(())
                    }
                } else {
                    let new_root_id = match root_node.save(pager) {
                        Err(e) => {
                            proof {
                                assert(pager@.subrange(0, pager@.len() as int) =~= pager@);
                                lemma_extends_trans(pager@, d1, d0);
                                lemma_extends_agree(pager@, d0);
                                lemma_tree_frame(*self, d0, pager@);
                            }
                            return Err(e);
                        },
                        Ok(o) => o,
                    };
                    let ghost d2 = pager@;
                    self.root = Some(new_root_id);
                    pager.update_root_offset(new_root_id);
                    proof {
                        lemma_extends_trans(d2, d1, d0);
                        lemma_extends_agree(d2, d1);
                        lemma_node_in_frame(d1, d2, root_node@, h);
                        assert(subtree_wf(d2, new_root_id, h));
                        lemma_header_write_agree(pager@, d2);
                        lemma_subtree_frame(d2, pager@, new_root_id, h);
                        lemma_node_at_frame(d2, pager@, new_root_id);
                        assert(self.wf(pager@)) by {
                            assert(subtree_wf(pager@, new_root_id, h));
                        }
                        assert(BTree::height_at(pager@, new_root_id) == h) by {
                            assert(subtree_wf(pager@, new_root_id, h));
                            lemma_height_unique(
                                pager@,
                                new_root_id,
                                BTree::height_at(pager@, new_root_id),
                                h,
                            );
                        }
                        assert(self.as_kvs(pager@) == kvs_remove(old_kvs, key@));
                    }
                    Ok(())
                }
            },
        }
    }
}

/// A well-formed subtree has exactly one height: leaves sit at one depth.
pub proof fn lemma_height_unique(disk: Seq<u8>, off: u64, h1: nat, h2: nat)
    requires
        subtree_wf(disk, off, h1),
        subtree_wf(disk, off, h2),
    ensures
        h1 == h2,
    decreases h1,
{
    let n = spec_node_at(disk, off).unwrap();
    if n.leaf {
    } else {
        assert(subtree_wf(disk, n.children[0], (h1 - 1) as nat));
        assert(subtree_wf(disk, n.children[0], (h2 - 1) as nat));
        lemma_height_unique(disk, n.children[0], (h1 - 1) as nat, (h2 - 1) as nat);
    }
}

} // verus!
