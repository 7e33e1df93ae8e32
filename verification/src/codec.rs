//! Node pages: encoding and decoding.
//!
//! A node is stored in one page: a leaf flag, the key count, the
//! length-prefixed keys, the length-prefixed values, and, for internal
//! nodes, the child offsets; the rest of the page is padding. The decoder
//! is the exact inverse of the encoder on well-shaped nodes and rejects
//! every payload that no node produced.

use vstd::prelude::*;

use crate::bytes::{
    copy_range, push_u64_be, read_u64_be, spec_u64_from_be_bytes, spec_u64_to_be_bytes,
    lemma_u64_be_bytes_roundtrip,
};
use crate::node::{Node, NodeV, node_shape, node_fits, views_of, MAX_KEYS, KV_LIMIT};
use crate::pager::{PAGE_SIZE, HEADER_SIZE};

verus! {

/// The encoding of one length-prefixed byte string.
#[verifier::opaque]
pub open spec fn spec_enc_item(b: Seq<u8>) -> Seq<u8> {
    spec_u64_to_be_bytes(b.len() as u64) + b
}

/// The encoding of a sequence of length-prefixed byte strings.
#[verifier::opaque]
pub open spec fn spec_enc_items(items: Seq<Seq<u8>>) -> Seq<u8>
    decreases items.len(),
{
    if items.len() == 0 {
        Seq::empty()
    } else {
        spec_enc_item(items[0]) + spec_enc_items(items.drop_first())
    }
}

/// The encoding of a sequence of 8-byte child offsets.
#[verifier::opaque]
pub open spec fn spec_enc_offsets(offsets: Seq<u64>) -> Seq<u8>
    decreases offsets.len(),
{
    if offsets.len() == 0 {
        Seq::empty()
    } else {
        spec_u64_to_be_bytes(offsets[0]) + spec_enc_offsets(offsets.drop_first())
    }
}

/// The encoding of a whole node: leaf flag, key count, keys, values, and,
/// for internal nodes, child offsets.
#[verifier::opaque]
pub open spec fn spec_encode_node(n: NodeV) -> Seq<u8> {
    seq![if n.leaf { 1u8 } else { 0u8 }] + spec_u64_to_be_bytes(n.keys.len() as u64)
        + spec_enc_items(n.keys) + spec_enc_items(n.values) + if n.leaf {
        Seq::<u8>::empty()
    } else {
        spec_enc_offsets(n.children)
    }
}

/// Parses one length-prefixed byte string at `pos`; `None` on truncation.
#[verifier::opaque]
pub open spec fn spec_parse_item(s: Seq<u8>, pos: int) -> Option<(Seq<u8>, int)> {
    if 0 <= pos && pos + 8 <= s.len() {
        let l = spec_u64_from_be_bytes(s.subrange(pos, pos + 8)) as int;
        if pos + 8 + l <= s.len() {
            Some((s.subrange(pos + 8, pos + 8 + l), pos + 8 + l))
        } else {
            None
        }
    } else {
        None
    }
}

/// Parses `k` length-prefixed byte strings starting at `pos`.
#[verifier::opaque]
pub open spec fn spec_parse_items(s: Seq<u8>, pos: int, k: nat) -> Option<(Seq<Seq<u8>>, int)>
    decreases k,
{
    if k == 0 {
        Some((Seq::empty(), pos))
    } else {
        match spec_parse_item(s, pos) {
            None => None,
            Some((item, p2)) => match spec_parse_items(s, p2, (k - 1) as nat) {
                None => None,
                Some((rest, p3)) => Some((seq![item] + rest, p3)),
            },
        }
    }
}

/// Parses `k` 8-byte child offsets starting at `pos`.
#[verifier::opaque]
pub open spec fn spec_parse_offsets(s: Seq<u8>, pos: int, k: nat) -> Option<(Seq<u64>, int)>
    decreases k,
{
    if k == 0 {
        Some((Seq::empty(), pos))
    } else if 0 <= pos && pos + 8 <= s.len() {
        let x = spec_u64_from_be_bytes(s.subrange(pos, pos + 8));
        match spec_parse_offsets(s, pos + 8, (k - 1) as nat) {
            None => None,
            Some((rest, p2)) => Some((seq![x] + rest, p2)),
        }
    } else {
        None
    }
}

/// Decodes the node a page holds; `None` when the payload is truncated or
/// inconsistent. Trailing page padding is ignored.
#[verifier::opaque]
pub open spec fn spec_decode_node(s: Seq<u8>) -> Option<NodeV> {
    if s.len() < 9 {
        None
    } else if s[0] != 0u8 && s[0] != 1u8 {
        None
    } else {
        let leaf = s[0] == 1u8;
        let k = spec_u64_from_be_bytes(s.subrange(1, 9)) as int;
        if k > MAX_KEYS {
            None
        } else {
            match spec_parse_items(s, 9, k as nat) {
                None => None,
                Some((keys, p1)) => match spec_parse_items(s, p1, k as nat) {
                    None => None,
                    Some((values, p2)) => if leaf {
                        Some(NodeV { keys, values, children: Seq::empty(), leaf: true })
                    } else {
                        match spec_parse_offsets(s, p2, (k + 1) as nat) {
                            None => None,
                            Some((children, _)) => Some(
                                NodeV { keys, values, children, leaf: false },
                            ),
                        }
                    },
                },
            }
        }
    }
}

/// The page stored at `off` in the file image.
pub open spec fn spec_page_at(disk: Seq<u8>, off: u64) -> Seq<u8> {
    disk.subrange(off as int, off + PAGE_SIZE)
}

/// The node stored at `off`: the page there, decoded. `None` when `off`
/// does not lie on a whole page past the header, or the page is corrupt.
pub open spec fn spec_node_at(disk: Seq<u8>, off: u64) -> Option<NodeV> {
    if off >= HEADER_SIZE && off + PAGE_SIZE <= disk.len() {
        spec_decode_node(spec_page_at(disk, off))
    } else {
        None
    }
}

/// A window of a window of `s` is a window of `s`.
pub proof fn lemma_subrange_again(s: Seq<u8>, a: int, b: int, x: int, y: int)
    requires
        0 <= a <= b <= s.len(),
        0 <= x <= y <= b - a,
    ensures
        s.subrange(a, b).subrange(x, y) == s.subrange(a + x, a + y),
{
    reveal(crate::codec::spec_enc_item);
    reveal(crate::codec::spec_enc_items);
    reveal(crate::codec::spec_enc_offsets);
    reveal(crate::codec::spec_encode_node);
    reveal(crate::codec::spec_parse_item);
    reveal(crate::codec::spec_parse_items);
    reveal(crate::codec::spec_parse_offsets);
    reveal(crate::codec::spec_decode_node);
    assert(s.subrange(a, b).subrange(x, y) =~= s.subrange(a + x, a + y));
}

/// Appending one byte string extends the items' encoding at the end.
pub proof fn lemma_enc_items_snoc(items: Seq<Seq<u8>>, x: Seq<u8>)
    ensures
        spec_enc_items(items.push(x)) == spec_enc_items(items) + spec_enc_item(x),
    decreases items.len(),
{
    reveal(crate::codec::spec_enc_item);
    reveal(crate::codec::spec_enc_items);
    reveal(crate::codec::spec_enc_offsets);
    reveal(crate::codec::spec_encode_node);
    reveal(crate::codec::spec_parse_item);
    reveal(crate::codec::spec_parse_items);
    reveal(crate::codec::spec_parse_offsets);
    reveal(crate::codec::spec_decode_node);
    let p = items.push(x);
    if items.len() == 0 {
        assert(p.len() == 1);
        assert(p[0] == x);
        assert(p.drop_first() =~= Seq::<Seq<u8>>::empty());
        assert(spec_enc_items(p.drop_first()) == Seq::<u8>::empty());
        assert(spec_enc_items(p) == spec_enc_item(x) + Seq::<u8>::empty());
        assert(spec_enc_items(items) == Seq::<u8>::empty());
        assert(spec_enc_item(x) + Seq::<u8>::empty() =~= Seq::<u8>::empty() + spec_enc_item(x));
    } else {
        assert(p[0] == items[0]);
        assert(p.drop_first() =~= items.drop_first().push(x));
        lemma_enc_items_snoc(items.drop_first(), x);
        assert(spec_enc_items(p) == spec_enc_item(items[0]) + (spec_enc_items(items.drop_first())
            + spec_enc_item(x)));
        assert(spec_enc_item(items[0]) + (spec_enc_items(items.drop_first()) + spec_enc_item(x))
            =~= (spec_enc_item(items[0]) + spec_enc_items(items.drop_first())) + spec_enc_item(x));
    }
}

/// Appending one offset extends the offsets' encoding at the end.
pub proof fn lemma_enc_offsets_snoc(offsets: Seq<u64>, x: u64)
    ensures
        spec_enc_offsets(offsets.push(x)) == spec_enc_offsets(offsets) + spec_u64_to_be_bytes(x),
    decreases offsets.len(),
{
    reveal(crate::codec::spec_enc_item);
    reveal(crate::codec::spec_enc_items);
    reveal(crate::codec::spec_enc_offsets);
    reveal(crate::codec::spec_encode_node);
    reveal(crate::codec::spec_parse_item);
    reveal(crate::codec::spec_parse_items);
    reveal(crate::codec::spec_parse_offsets);
    reveal(crate::codec::spec_decode_node);
    let p = offsets.push(x);
    if offsets.len() == 0 {
        assert(p.len() == 1);
        assert(p[0] == x);
        assert(p.drop_first() =~= Seq::<u64>::empty());
        assert(spec_enc_offsets(p.drop_first()) == Seq::<u8>::empty());
        assert(spec_enc_offsets(p) == spec_u64_to_be_bytes(x) + Seq::<u8>::empty());
        assert(spec_enc_offsets(offsets) == Seq::<u8>::empty());
        assert(spec_u64_to_be_bytes(x) + Seq::<u8>::empty() =~= Seq::<u8>::empty()
            + spec_u64_to_be_bytes(x));
    } else {
        assert(p[0] == offsets[0]);
        assert(p.drop_first() =~= offsets.drop_first().push(x));
        lemma_enc_offsets_snoc(offsets.drop_first(), x);
        assert(spec_enc_offsets(p) == spec_u64_to_be_bytes(offsets[0]) + (spec_enc_offsets(
            offsets.drop_first(),
        ) + spec_u64_to_be_bytes(x)));
        assert(spec_u64_to_be_bytes(offsets[0]) + (spec_enc_offsets(offsets.drop_first())
            + spec_u64_to_be_bytes(x)) =~= (spec_u64_to_be_bytes(offsets[0]) + spec_enc_offsets(
            offsets.drop_first(),
        )) + spec_u64_to_be_bytes(x));
    }
}

/// Bounds the encoding of parallel key and value sequences whose entries
/// all fit.
pub proof fn lemma_enc_pairs_len(keys: Seq<Seq<u8>>, values: Seq<Seq<u8>>)
    requires
        keys.len() == values.len(),
        forall|i: int| 0 <= i < keys.len() ==> #[trigger] keys[i].len() + values[i].len()
            <= KV_LIMIT,
    ensures
        spec_enc_items(keys).len() + spec_enc_items(values).len() <= keys.len() * (16 + KV_LIMIT),
    decreases keys.len(),
{
    reveal(crate::codec::spec_enc_item);
    reveal(crate::codec::spec_enc_items);
    reveal(crate::codec::spec_enc_offsets);
    reveal(crate::codec::spec_encode_node);
    reveal(crate::codec::spec_parse_item);
    reveal(crate::codec::spec_parse_items);
    reveal(crate::codec::spec_parse_offsets);
    reveal(crate::codec::spec_decode_node);
    if keys.len() == 0 {
    } else {
        assert forall|i: int| 0 <= i < keys.drop_first().len() implies #[trigger] (
        keys.drop_first()[i]).len() + values.drop_first()[i].len() <= KV_LIMIT by {
            assert(keys[i + 1].len() + values[i + 1].len() <= KV_LIMIT);
        }
        lemma_enc_pairs_len(keys.drop_first(), values.drop_first());
        assert(keys[0].len() + values[0].len() <= KV_LIMIT);
        assert((keys.len() - 1) * (16 + KV_LIMIT) + (16 + KV_LIMIT) == keys.len() * (16 + KV_LIMIT))
            by (nonlinear_arith);
    }
}

/// The encoding of a sequence of child offsets takes 8 bytes each.
pub proof fn lemma_enc_offsets_len(offsets: Seq<u64>)
    ensures
        spec_enc_offsets(offsets).len() == offsets.len() * 8,
    decreases offsets.len(),
{
    reveal(crate::codec::spec_enc_item);
    reveal(crate::codec::spec_enc_items);
    reveal(crate::codec::spec_enc_offsets);
    reveal(crate::codec::spec_encode_node);
    reveal(crate::codec::spec_parse_item);
    reveal(crate::codec::spec_parse_items);
    reveal(crate::codec::spec_parse_offsets);
    reveal(crate::codec::spec_decode_node);
    if offsets.len() == 0 {
    } else {
        lemma_enc_offsets_len(offsets.drop_first());
    }
}

/// A well-shaped node whose entries fit encodes within one page.
pub proof fn lemma_encode_fits(n: NodeV)
    requires
        node_shape(n),
        node_fits(n),
    ensures
        spec_encode_node(n).len() <= PAGE_SIZE,
{
    reveal(crate::codec::spec_enc_item);
    reveal(crate::codec::spec_enc_items);
    reveal(crate::codec::spec_enc_offsets);
    reveal(crate::codec::spec_encode_node);
    reveal(crate::codec::spec_parse_item);
    reveal(crate::codec::spec_parse_items);
    reveal(crate::codec::spec_parse_offsets);
    reveal(crate::codec::spec_decode_node);
    assert forall|i: int| 0 <= i < n.keys.len() implies #[trigger] n.keys[i].len()
        + n.values[i].len() <= KV_LIMIT by {
        assert(crate::node::pair_fits(n.keys[i], n.values[i]));
    }
    lemma_enc_pairs_len(n.keys, n.values);
    lemma_enc_offsets_len(n.children);
    assert(n.keys.len() * (16 + KV_LIMIT) <= MAX_KEYS * (16 + KV_LIMIT)) by (nonlinear_arith)
        requires
            n.keys.len() <= MAX_KEYS,
    ;
}

/// Parsing at the start of an item's encoding yields that item.
pub proof fn lemma_parse_item_of_enc(s: Seq<u8>, pos: int, b: Seq<u8>)
    requires
        0 <= pos,
        pos + spec_enc_item(b).len() <= s.len(),
        s.subrange(pos, pos + spec_enc_item(b).len()) == spec_enc_item(b),
        b.len() <= u64::MAX,
    ensures
        spec_parse_item(s, pos) == Some((b, pos + 8 + b.len())),
{
    reveal(crate::codec::spec_enc_item);
    reveal(crate::codec::spec_enc_items);
    reveal(crate::codec::spec_enc_offsets);
    reveal(crate::codec::spec_encode_node);
    reveal(crate::codec::spec_parse_item);
    reveal(crate::codec::spec_parse_items);
    reveal(crate::codec::spec_parse_offsets);
    reveal(crate::codec::spec_decode_node);
    lemma_u64_be_bytes_roundtrip();
    let e = spec_enc_item(b);
    let n = e.len() as int;
    assert(n == 8 + b.len());
    lemma_subrange_again(s, pos, pos + n, 0, 8);
    assert(e.subrange(0, 8) =~= spec_u64_to_be_bytes(b.len() as u64));
    assert(s.subrange(pos, pos + 8) == spec_u64_to_be_bytes(b.len() as u64));
    assert(spec_u64_from_be_bytes(spec_u64_to_be_bytes(b.len() as u64)) == b.len() as u64);
    lemma_subrange_again(s, pos, pos + n, 8, n);
    assert(e.subrange(8, n) =~= b);
    assert(s.subrange(pos + 8, pos + 8 + b.len()) == b);
}

/// Parsing at the start of an item sequence's encoding yields the items.
pub proof fn lemma_parse_items_of_enc(s: Seq<u8>, pos: int, items: Seq<Seq<u8>>)
    requires
        0 <= pos,
        pos + spec_enc_items(items).len() <= s.len(),
        s.subrange(pos, pos + spec_enc_items(items).len()) == spec_enc_items(items),
        forall|i: int| 0 <= i < items.len() ==> #[trigger] items[i].len() <= u64::MAX,
    ensures
        spec_parse_items(s, pos, items.len()) == Some(
            (items, pos + spec_enc_items(items).len()),
        ),
    decreases items.len(),
{
    reveal(crate::codec::spec_enc_item);
    reveal(crate::codec::spec_enc_items);
    reveal(crate::codec::spec_enc_offsets);
    reveal(crate::codec::spec_encode_node);
    reveal(crate::codec::spec_parse_item);
    reveal(crate::codec::spec_parse_items);
    reveal(crate::codec::spec_parse_offsets);
    reveal(crate::codec::spec_decode_node);
    if items.len() == 0 {
    } else {
        let e = spec_enc_items(items);
        let n = e.len() as int;
        let e0 = spec_enc_item(items[0]);
        let n0 = e0.len() as int;
        let rest = spec_enc_items(items.drop_first());
        assert(e == e0 + rest);
        lemma_subrange_again(s, pos, pos + n, 0, n0);
        assert(e.subrange(0, n0) =~= e0);
        assert(s.subrange(pos, pos + n0) == e0);
        lemma_parse_item_of_enc(s, pos, items[0]);
        let p2 = pos + n0;
        lemma_subrange_again(s, pos, pos + n, n0, n);
        assert(e.subrange(n0, n) =~= rest);
        assert(s.subrange(p2, p2 + rest.len() as int) == rest);
        assert forall|i: int| 0 <= i < items.drop_first().len() implies #[trigger] (
        items.drop_first()[i]).len() <= u64::MAX by {
            assert(items[i + 1].len() <= u64::MAX);
        }
        lemma_parse_items_of_enc(s, p2, items.drop_first());
        assert(seq![items[0]] + items.drop_first() =~= items);
    }
}

/// Parsing at the start of an offset sequence's encoding yields the offsets.
pub proof fn lemma_parse_offsets_of_enc(s: Seq<u8>, pos: int, offsets: Seq<u64>)
    requires
        0 <= pos,
        pos + spec_enc_offsets(offsets).len() <= s.len(),
        s.subrange(pos, pos + spec_enc_offsets(offsets).len()) == spec_enc_offsets(offsets),
    ensures
        spec_parse_offsets(s, pos, offsets.len()) == Some(
            (offsets, pos + spec_enc_offsets(offsets).len()),
        ),
    decreases offsets.len(),
{
    reveal(crate::codec::spec_enc_item);
    reveal(crate::codec::spec_enc_items);
    reveal(crate::codec::spec_enc_offsets);
    reveal(crate::codec::spec_encode_node);
    reveal(crate::codec::spec_parse_item);
    reveal(crate::codec::spec_parse_items);
    reveal(crate::codec::spec_parse_offsets);
    reveal(crate::codec::spec_decode_node);
    lemma_u64_be_bytes_roundtrip();
    if offsets.len() == 0 {
    } else {
        let e = spec_enc_offsets(offsets);
        let n = e.len() as int;
        let e0 = spec_u64_to_be_bytes(offsets[0]);
        let rest = spec_enc_offsets(offsets.drop_first());
        assert(e == e0 + rest);
        lemma_subrange_again(s, pos, pos + n, 0, 8);
        assert(e.subrange(0, 8) =~= e0);
        assert(s.subrange(pos, pos + 8) == e0);
        assert(spec_u64_from_be_bytes(spec_u64_to_be_bytes(offsets[0])) == offsets[0]);
        let p2 = pos + 8;
        lemma_subrange_again(s, pos, pos + n, 8, n);
        assert(e.subrange(8, n) =~= rest);
        assert(s.subrange(p2, p2 + rest.len() as int) == rest);
        lemma_parse_offsets_of_enc(s, p2, offsets.drop_first());
        assert(seq![offsets[0]] + offsets.drop_first() =~= offsets);
    }
}

/// Decoding a page that begins with a well-shaped node's encoding yields
/// exactly that node, whatever padding follows.
pub proof fn lemma_decode_of_encode(s: Seq<u8>, n: NodeV)
    requires
        node_shape(n),
        spec_encode_node(n).len() <= s.len(),
        s.subrange(0, spec_encode_node(n).len() as int) == spec_encode_node(n),
        forall|i: int| 0 <= i < n.keys.len() ==> #[trigger] n.keys[i].len() <= u64::MAX,
        forall|i: int| 0 <= i < n.values.len() ==> #[trigger] n.values[i].len() <= u64::MAX,
    ensures
        spec_decode_node(s) == Some(n),
{
    reveal(crate::codec::spec_enc_item);
    reveal(crate::codec::spec_enc_items);
    reveal(crate::codec::spec_enc_offsets);
    reveal(crate::codec::spec_encode_node);
    reveal(crate::codec::spec_parse_item);
    reveal(crate::codec::spec_parse_items);
    reveal(crate::codec::spec_parse_offsets);
    reveal(crate::codec::spec_decode_node);
    lemma_u64_be_bytes_roundtrip();
    let e = spec_encode_node(n);
    let m = e.len() as int;
    let flag = seq![if n.leaf { 1u8 } else { 0u8 }];
    let cnt = spec_u64_to_be_bytes(n.keys.len() as u64);
    let ek = spec_enc_items(n.keys);
    let ev = spec_enc_items(n.values);
    let ec = if n.leaf { Seq::<u8>::empty() } else { spec_enc_offsets(n.children) };
    assert(e == flag + cnt + ek + ev + ec);
    assert(s[0] == e[0]) by {
        assert(s.subrange(0, m)[0] == e[0]);
    }
    assert(e[0] == if n.leaf { 1u8 } else { 0u8 });
    lemma_subrange_again(s, 0, m, 1, 9);
    assert(e.subrange(1, 9) =~= cnt);
    assert(s.subrange(1, 9) == cnt);
    assert(spec_u64_from_be_bytes(cnt) == n.keys.len() as u64);
    let p1 = 9 + ek.len() as int;
    lemma_subrange_again(s, 0, m, 9, p1);
    assert(e.subrange(9, p1) =~= ek);
    assert(s.subrange(9, p1) == ek);
    lemma_parse_items_of_enc(s, 9, n.keys);
    let p2 = p1 + ev.len() as int;
    lemma_subrange_again(s, 0, m, p1, p2);
    assert(e.subrange(p1, p2) =~= ev);
    assert(s.subrange(p1, p2) == ev);
    lemma_parse_items_of_enc(s, p1, n.values);
    if !n.leaf {
        let p3 = p2 + ec.len() as int;
        lemma_subrange_again(s, 0, m, p2, p3);
        assert(e.subrange(p2, p3) =~= ec);
        assert(s.subrange(p2, p3) == ec);
        lemma_parse_offsets_of_enc(s, p2, n.children);
        assert(spec_decode_node(s) == Some(n));
    } else {
        assert(n.children =~= Seq::<u64>::empty());
        assert(spec_decode_node(s) == Some(n));
    }
}

/// Appends the length-prefixed encoding of `item` to `out`.
fn push_item(out: &mut Vec<u8>, item: &Vec<u8>)
    ensures
        final(out)@ == old(out)@ + spec_enc_item(item@),
{
    proof {
        reveal(crate::codec::spec_enc_item);
        reveal(crate::codec::spec_enc_items);
        reveal(crate::codec::spec_enc_offsets);
        reveal(crate::codec::spec_encode_node);
        reveal(crate::codec::spec_parse_item);
        reveal(crate::codec::spec_parse_items);
        reveal(crate::codec::spec_parse_offsets);
        reveal(crate::codec::spec_decode_node);
    }
    push_u64_be(out, item.len() as u64);
    let ghost mid = out@;
    let mut i: usize = 0;
    while i < item.len()
        invariant
            0 <= i <= item.len(),
            out@ =~= mid + item@.subrange(0, i as int),
        decreases item.len() - i,
    {
        out.push(item[i]);
        proof {
        reveal(crate::codec::spec_enc_item);
        reveal(crate::codec::spec_enc_items);
        reveal(crate::codec::spec_enc_offsets);
        reveal(crate::codec::spec_encode_node);
        reveal(crate::codec::spec_parse_item);
        reveal(crate::codec::spec_parse_items);
        reveal(crate::codec::spec_parse_offsets);
        reveal(crate::codec::spec_decode_node);
            assert(out@ =~= mid + item@.subrange(0, i + 1));
        }
        i = i + 1;
    }
    proof {
        reveal(crate::codec::spec_enc_item);
        reveal(crate::codec::spec_enc_items);
        reveal(crate::codec::spec_enc_offsets);
        reveal(crate::codec::spec_encode_node);
        reveal(crate::codec::spec_parse_item);
        reveal(crate::codec::spec_parse_items);
        reveal(crate::codec::spec_parse_offsets);
        reveal(crate::codec::spec_decode_node);
        assert(item@.subrange(0, item@.len() as int) =~= item@);
        assert(out@ =~= old(out)@ + spec_enc_item(item@));
    }
}

impl Node {
    /// Encodes the node for storage in one page.
    pub fn to_bytes(&self) -> (r: Vec<u8>)
        ensures
            r@ == spec_encode_node(self@),
    {
        proof {
        reveal(crate::codec::spec_enc_item);
        reveal(crate::codec::spec_enc_items);
        reveal(crate::codec::spec_enc_offsets);
        reveal(crate::codec::spec_encode_node);
        reveal(crate::codec::spec_parse_item);
        reveal(crate::codec::spec_parse_items);
        reveal(crate::codec::spec_parse_offsets);
        reveal(crate::codec::spec_decode_node);
        }
        let ghost nv = self@;
        let mut out: Vec<u8> = Vec::new();
        out.push(if self.is_leaf { 1u8 } else { 0u8 });
        push_u64_be(&mut out, self.keys.len() as u64);
        let ghost head = out@;
        proof {
        reveal(crate::codec::spec_enc_item);
        reveal(crate::codec::spec_enc_items);
        reveal(crate::codec::spec_enc_offsets);
        reveal(crate::codec::spec_encode_node);
        reveal(crate::codec::spec_parse_item);
        reveal(crate::codec::spec_parse_items);
        reveal(crate::codec::spec_parse_offsets);
        reveal(crate::codec::spec_decode_node);
            assert(head =~= seq![if nv.leaf { 1u8 } else { 0u8 }] + spec_u64_to_be_bytes(
                nv.keys.len() as u64,
            ));
        }
        let mut i: usize = 0;
        while i < self.keys.len()
            invariant
                0 <= i <= self.keys.len(),
                nv == self@,
                head == seq![if nv.leaf { 1u8 } else { 0u8 }] + spec_u64_to_be_bytes(
                    nv.keys.len() as u64,
                ),
                out@ == head + spec_enc_items(nv.keys.take(i as int)),
            decreases self.keys.len() - i,
        {
            push_item(&mut out, &self.keys[i]);
            proof {
        reveal(crate::codec::spec_enc_item);
        reveal(crate::codec::spec_enc_items);
        reveal(crate::codec::spec_enc_offsets);
        reveal(crate::codec::spec_encode_node);
        reveal(crate::codec::spec_parse_item);
        reveal(crate::codec::spec_parse_items);
        reveal(crate::codec::spec_parse_offsets);
        reveal(crate::codec::spec_decode_node);
                assert(nv.keys.take(i + 1) =~= nv.keys.take(i as int).push(nv.keys[i as int]));
                lemma_enc_items_snoc(nv.keys.take(i as int), nv.keys[i as int]);
                assert(out@ =~= head + spec_enc_items(nv.keys.take(i + 1)));
            }
            i = i + 1;
        }
        proof {
        reveal(crate::codec::spec_enc_item);
        reveal(crate::codec::spec_enc_items);
        reveal(crate::codec::spec_enc_offsets);
        reveal(crate::codec::spec_encode_node);
        reveal(crate::codec::spec_parse_item);
        reveal(crate::codec::spec_parse_items);
        reveal(crate::codec::spec_parse_offsets);
        reveal(crate::codec::spec_decode_node);
            assert(nv.keys.take(nv.keys.len() as int) =~= nv.keys);
        }
        let ghost head2 = out@;
        let mut i: usize = 0;
        while i < self.values.len()
            invariant
                0 <= i <= self.values.len(),
                nv == self@,
                head2 == head + spec_enc_items(nv.keys),
                out@ == head2 + spec_enc_items(nv.values.take(i as int)),
            decreases self.values.len() - i,
        {
            push_item(&mut out, &self.values[i]);
            proof {
        reveal(crate::codec::spec_enc_item);
        reveal(crate::codec::spec_enc_items);
        reveal(crate::codec::spec_enc_offsets);
        reveal(crate::codec::spec_encode_node);
        reveal(crate::codec::spec_parse_item);
        reveal(crate::codec::spec_parse_items);
        reveal(crate::codec::spec_parse_offsets);
        reveal(crate::codec::spec_decode_node);
                assert(nv.values.take(i + 1) =~= nv.values.take(i as int).push(
                    nv.values[i as int],
                ));
                lemma_enc_items_snoc(nv.values.take(i as int), nv.values[i as int]);
                assert(out@ =~= head2 + spec_enc_items(nv.values.take(i + 1)));
            }
            i = i + 1;
        }
        proof {
        reveal(crate::codec::spec_enc_item);
        reveal(crate::codec::spec_enc_items);
        reveal(crate::codec::spec_enc_offsets);
        reveal(crate::codec::spec_encode_node);
        reveal(crate::codec::spec_parse_item);
        reveal(crate::codec::spec_parse_items);
        reveal(crate::codec::spec_parse_offsets);
        reveal(crate::codec::spec_decode_node);
            assert(nv.values.take(nv.values.len() as int) =~= nv.values);
        }
        let ghost head3 = out@;
        if !self.is_leaf {
            let mut i: usize = 0;
            while i < self.children.len()
                invariant
                    0 <= i <= self.children.len(),
                    nv == self@,
                    head3 == head + spec_enc_items(nv.keys) + spec_enc_items(nv.values),
                    out@ == head3 + spec_enc_offsets(nv.children.take(i as int)),
                decreases self.children.len() - i,
            {
                push_u64_be(&mut out, self.children[i]);
                proof {
        reveal(crate::codec::spec_enc_item);
        reveal(crate::codec::spec_enc_items);
        reveal(crate::codec::spec_enc_offsets);
        reveal(crate::codec::spec_encode_node);
        reveal(crate::codec::spec_parse_item);
        reveal(crate::codec::spec_parse_items);
        reveal(crate::codec::spec_parse_offsets);
        reveal(crate::codec::spec_decode_node);
                    assert(nv.children.take(i + 1) =~= nv.children.take(i as int).push(
                        nv.children[i as int],
                    ));
                    lemma_enc_offsets_snoc(nv.children.take(i as int), nv.children[i as int]);
                    assert(out@ =~= head3 + spec_enc_offsets(nv.children.take(i + 1)));
                }
                i = i + 1;
            }
            proof {
        reveal(crate::codec::spec_enc_item);
        reveal(crate::codec::spec_enc_items);
        reveal(crate::codec::spec_enc_offsets);
        reveal(crate::codec::spec_encode_node);
        reveal(crate::codec::spec_parse_item);
        reveal(crate::codec::spec_parse_items);
        reveal(crate::codec::spec_parse_offsets);
        reveal(crate::codec::spec_decode_node);
                assert(nv.children.take(nv.children.len() as int) =~= nv.children);
                assert(out@ =~= spec_encode_node(nv));
            }
        } else {
            proof {
        reveal(crate::codec::spec_enc_item);
        reveal(crate::codec::spec_enc_items);
        reveal(crate::codec::spec_enc_offsets);
        reveal(crate::codec::spec_encode_node);
        reveal(crate::codec::spec_parse_item);
        reveal(crate::codec::spec_parse_items);
        reveal(crate::codec::spec_parse_offsets);
        reveal(crate::codec::spec_decode_node);
                assert(out@ =~= spec_encode_node(nv));
            }
        }
        out
    }

    /// Decodes a node from the bytes of one page; fails iff the payload is
    /// truncated or inconsistent.
    pub fn from_bytes(data: &Vec<u8>) -> (r: Result<Node, ()>)
        ensures
            r matches Ok(n) ==> spec_decode_node(data@) == Some(n@),
            r is Err <==> spec_decode_node(data@) is None,
    {
        proof {
        reveal(crate::codec::spec_enc_item);
        reveal(crate::codec::spec_enc_items);
        reveal(crate::codec::spec_enc_offsets);
        reveal(crate::codec::spec_encode_node);
        reveal(crate::codec::spec_parse_item);
        reveal(crate::codec::spec_parse_items);
        reveal(crate::codec::spec_parse_offsets);
        reveal(crate::codec::spec_decode_node);
        }
        if data.len() < 9 {
            return Err(());
        }
        let leaf_byte = data[0];
        if leaf_byte > 1 {
            return Err(());
        }
        let is_leaf = leaf_byte == 1;
        let k64 = read_u64_be(data, 1);
        if k64 > MAX_KEYS as u64 {
            return Err(());
        }
        let k = k64 as usize;
        let keys = match parse_items_exec(data, 9, k) {
            Err(()) => {
                return Err(());
            },
            Ok(v) => v,
        };
        let p1 = keys.1;
        let values = match parse_items_exec(data, p1, k) {
            Err(()) => {
                return Err(());
            },
            Ok(v) => v,
        };
        let p2 = values.1;
        if is_leaf {
            let n = Node { keys: keys.0, values: values.0, children: Vec::new(), is_leaf: true };
            proof {
        reveal(crate::codec::spec_enc_item);
        reveal(crate::codec::spec_enc_items);
        reveal(crate::codec::spec_enc_offsets);
        reveal(crate::codec::spec_encode_node);
        reveal(crate::codec::spec_parse_item);
        reveal(crate::codec::spec_parse_items);
        reveal(crate::codec::spec_parse_offsets);
        reveal(crate::codec::spec_decode_node);
                assert(n@.children =~= Seq::<u64>::empty());
            }
            Ok(n)
        } else {
            let children = match parse_offsets_exec(data, p2, k + 1) {
                Err(()) => {
                    return Err(());
                },
                Ok(v) => v,
            };
            let n = Node { keys: keys.0, values: values.0, children: children.0, is_leaf: false };
            Ok(n)
        }
    }
}

/// Parses `k` length-prefixed byte strings of `data` starting at `pos`.
fn parse_items_exec(data: &Vec<u8>, pos: usize, k: usize) -> (r: Result<(Vec<Vec<u8>>, usize), ()>)
    requires
        pos <= data.len(),
    ensures
        r matches Ok(v) ==> {
            &&& spec_parse_items(data@, pos as int, k as nat) == Some(
                (views_of(v.0@), v.1 as int),
            )
            &&& v.1 <= data.len()
        },
        r is Err <==> spec_parse_items(data@, pos as int, k as nat) is None,
{
    proof {
        reveal(crate::codec::spec_enc_item);
        reveal(crate::codec::spec_enc_items);
        reveal(crate::codec::spec_enc_offsets);
        reveal(crate::codec::spec_encode_node);
        reveal(crate::codec::spec_parse_item);
        reveal(crate::codec::spec_parse_items);
        reveal(crate::codec::spec_parse_offsets);
        reveal(crate::codec::spec_decode_node);
    }
    let mut acc: Vec<Vec<u8>> = Vec::new();
    let mut cur: usize = pos;
    let mut i: usize = 0;
    proof {
        reveal(crate::codec::spec_enc_item);
        reveal(crate::codec::spec_enc_items);
        reveal(crate::codec::spec_enc_offsets);
        reveal(crate::codec::spec_encode_node);
        reveal(crate::codec::spec_parse_item);
        reveal(crate::codec::spec_parse_items);
        reveal(crate::codec::spec_parse_offsets);
        reveal(crate::codec::spec_decode_node);
        assert(views_of(acc@) =~= Seq::<Seq<u8>>::empty());
    }
    while i < k
        invariant
            0 <= i <= k,
            pos <= data.len(),
            cur <= data.len(),
            acc@.len() == i,
            spec_parse_items(data@, pos as int, k as nat) == match spec_parse_items(
                data@,
                cur as int,
                (k - i) as nat,
            ) {
                Option::None => Option::<(Seq<Seq<u8>>, int)>::None,
                Option::Some(t) => Option::Some((views_of(acc@) + t.0, t.1)),
            },
        decreases k - i,
    {
        if data.len() - cur < 8 {
            proof {
        reveal(crate::codec::spec_enc_item);
        reveal(crate::codec::spec_enc_items);
        reveal(crate::codec::spec_enc_offsets);
        reveal(crate::codec::spec_encode_node);
        reveal(crate::codec::spec_parse_item);
        reveal(crate::codec::spec_parse_items);
        reveal(crate::codec::spec_parse_offsets);
        reveal(crate::codec::spec_decode_node);
                assert(spec_parse_item(data@, cur as int) is None);
                assert(spec_parse_items(data@, cur as int, (k - i) as nat) is None);
            }
            return Err(());
        }
        let l64 = read_u64_be(data, cur);
        if l64 > (data.len() - (cur + 8)) as u64 {
            proof {
        reveal(crate::codec::spec_enc_item);
        reveal(crate::codec::spec_enc_items);
        reveal(crate::codec::spec_enc_offsets);
        reveal(crate::codec::spec_encode_node);
        reveal(crate::codec::spec_parse_item);
        reveal(crate::codec::spec_parse_items);
        reveal(crate::codec::spec_parse_offsets);
        reveal(crate::codec::spec_decode_node);
                assert(spec_parse_item(data@, cur as int) is None);
                assert(spec_parse_items(data@, cur as int, (k - i) as nat) is None);
            }
            return Err(());
        }
        let l = l64 as usize;
        let item = copy_range(data, cur + 8, l);
        let ghost old_acc = acc@;
        acc.push(item);
        proof {
        reveal(crate::codec::spec_enc_item);
        reveal(crate::codec::spec_enc_items);
        reveal(crate::codec::spec_enc_offsets);
        reveal(crate::codec::spec_encode_node);
        reveal(crate::codec::spec_parse_item);
        reveal(crate::codec::spec_parse_items);
        reveal(crate::codec::spec_parse_offsets);
        reveal(crate::codec::spec_decode_node);
            assert(spec_parse_item(data@, cur as int) == Some(
                (data@.subrange(cur + 8, cur + 8 + l), cur + 8 + l),
            ));
            assert(views_of(acc@) =~= views_of(old_acc).push(data@.subrange(
                cur + 8,
                cur + 8 + l,
            )));
            assert forall|t: (Seq<Seq<u8>>, int)|
                spec_parse_items(data@, cur + 8 + l, (k - i - 1) as nat) == Some::<
                    (Seq<Seq<u8>>, int),
                >(t) implies views_of(old_acc) + (seq![data@.subrange(cur + 8, cur + 8 + l)] + t.0)
                == views_of(acc@) + t.0 by {
                assert(views_of(old_acc) + (seq![data@.subrange(cur + 8, cur + 8 + l)] + t.0)
                    =~= views_of(acc@) + t.0);
            }
        }
        cur = cur + 8 + l;
        i = i + 1;
    }
    proof {
        reveal(crate::codec::spec_enc_item);
        reveal(crate::codec::spec_enc_items);
        reveal(crate::codec::spec_enc_offsets);
        reveal(crate::codec::spec_encode_node);
        reveal(crate::codec::spec_parse_item);
        reveal(crate::codec::spec_parse_items);
        reveal(crate::codec::spec_parse_offsets);
        reveal(crate::codec::spec_decode_node);
        assert(spec_parse_items(data@, cur as int, 0) == Some::<(Seq<Seq<u8>>, int)>(
            (Seq::empty(), cur as int),
        ));
        assert(views_of(acc@) + Seq::<Seq<u8>>::empty() =~= views_of(acc@));
    }
    Ok((acc, cur))
}

/// Parses `k` 8-byte child offsets of `data` starting at `pos`.
fn parse_offsets_exec(data: &Vec<u8>, pos: usize, k: usize) -> (r: Result<(Vec<u64>, usize), ()>)
    requires
        pos <= data.len(),
    ensures
        r matches Ok(v) ==> {
            &&& spec_parse_offsets(data@, pos as int, k as nat) == Some((v.0@, v.1 as int))
            &&& v.1 <= data.len()
        },
        r is Err <==> spec_parse_offsets(data@, pos as int, k as nat) is None,
{
    proof {
        reveal(crate::codec::spec_enc_item);
        reveal(crate::codec::spec_enc_items);
        reveal(crate::codec::spec_enc_offsets);
        reveal(crate::codec::spec_encode_node);
        reveal(crate::codec::spec_parse_item);
        reveal(crate::codec::spec_parse_items);
        reveal(crate::codec::spec_parse_offsets);
        reveal(crate::codec::spec_decode_node);
    }
    let mut acc: Vec<u64> = Vec::new();
    let mut cur: usize = pos;
    let mut i: usize = 0;
    while i < k
        invariant
            0 <= i <= k,
            pos <= data.len(),
            cur <= data.len(),
            acc@.len() == i,
            spec_parse_offsets(data@, pos as int, k as nat) == match spec_parse_offsets(
                data@,
                cur as int,
                (k - i) as nat,
            ) {
                Option::None => Option::<(Seq<u64>, int)>::None,
                Option::Some(t) => Option::Some((acc@ + t.0, t.1)),
            },
        decreases k - i,
    {
        if data.len() - cur < 8 {
            proof {
        reveal(crate::codec::spec_enc_item);
        reveal(crate::codec::spec_enc_items);
        reveal(crate::codec::spec_enc_offsets);
        reveal(crate::codec::spec_encode_node);
        reveal(crate::codec::spec_parse_item);
        reveal(crate::codec::spec_parse_items);
        reveal(crate::codec::spec_parse_offsets);
        reveal(crate::codec::spec_decode_node);
                assert(spec_parse_offsets(data@, cur as int, (k - i) as nat) is None);
            }
            return Err(());
        }
        let x = read_u64_be(data, cur);
        let ghost old_acc = acc@;
        acc.push(x);
        proof {
        reveal(crate::codec::spec_enc_item);
        reveal(crate::codec::spec_enc_items);
        reveal(crate::codec::spec_enc_offsets);
        reveal(crate::codec::spec_encode_node);
        reveal(crate::codec::spec_parse_item);
        reveal(crate::codec::spec_parse_items);
        reveal(crate::codec::spec_parse_offsets);
        reveal(crate::codec::spec_decode_node);
            assert forall|t: (Seq<u64>, int)|
                spec_parse_offsets(data@, cur + 8, (k - i - 1) as nat) == Some::<
                    (Seq<u64>, int),
                >(t) implies old_acc + (seq![x] + t.0) == acc@ + t.0 by {
                assert(old_acc + (seq![x] + t.0) =~= acc@ + t.0);
            }
        }
        cur = cur + 8;
        i = i + 1;
    }
    proof {
        reveal(crate::codec::spec_enc_item);
        reveal(crate::codec::spec_enc_items);
        reveal(crate::codec::spec_enc_offsets);
        reveal(crate::codec::spec_encode_node);
        reveal(crate::codec::spec_parse_item);
        reveal(crate::codec::spec_parse_items);
        reveal(crate::codec::spec_parse_offsets);
        reveal(crate::codec::spec_decode_node);
        assert(spec_parse_offsets(data@, cur as int, 0) == Some::<(Seq<u64>, int)>(
            (Seq::empty(), cur as int),
        ));
        assert(acc@ + Seq::<u64>::empty() =~= acc@);
    }
    Ok((acc, cur))
}

/// A parse of `k` items yields `k` items.
pub proof fn lemma_parse_items_len(s: Seq<u8>, pos: int, k: nat)
    ensures
        spec_parse_items(s, pos, k) matches Some(p) ==> p.0.len() == k,
    decreases k,
{
    reveal(crate::codec::spec_parse_items);
    if k == 0 {
    } else {
        match spec_parse_item(s, pos) {
            None => {},
            Some((item, p2)) => {
                lemma_parse_items_len(s, p2, (k - 1) as nat);
            },
        }
    }
}

/// A parse of `k` offsets yields `k` offsets.
pub proof fn lemma_parse_offsets_len(s: Seq<u8>, pos: int, k: nat)
    ensures
        spec_parse_offsets(s, pos, k) matches Some(p) ==> p.0.len() == k,
    decreases k,
{
    reveal(crate::codec::spec_parse_offsets);
    if k == 0 {
    } else if 0 <= pos && pos + 8 <= s.len() {
        lemma_parse_offsets_len(s, pos + 8, (k - 1) as nat);
    }
}

/// Whatever decodes is well-shaped: the parallel sequences agree in
/// length, a leaf has no children, an internal node one more child than
/// keys, and the key count is within a node's capacity.
pub proof fn lemma_decode_shape(s: Seq<u8>)
    ensures
        spec_decode_node(s) matches Some(n) ==> {
            &&& n.values.len() == n.keys.len()
            &&& n.keys.len() <= MAX_KEYS
            &&& (n.leaf ==> n.children.len() == 0)
            &&& (!n.leaf ==> n.children.len() == n.keys.len() + 1)
        },
{
    reveal(crate::codec::spec_decode_node);
    if s.len() < 9 || (s[0] != 0u8 && s[0] != 1u8) {
    } else {
        let k = spec_u64_from_be_bytes(s.subrange(1, 9)) as int;
        if k <= MAX_KEYS {
            lemma_parse_items_len(s, 9, k as nat);
            match spec_parse_items(s, 9, k as nat) {
                None => {},
                Some((keys, p1)) => {
                    lemma_parse_items_len(s, p1, k as nat);
                    match spec_parse_items(s, p1, k as nat) {
                        None => {},
                        Some((values, p2)) => {
                            lemma_parse_offsets_len(s, p2, (k + 1) as nat);
                        },
                    }
                },
            }
        }
    }
}

} // verus!
