//! A snapshot's image holds the tree it was taken of, so loading it gives
//! that tree back.

use crate::btree::{key_ceil, key_floor, Btree};
use crate::codec::{items_bytes, laid_out, lemma_items_bytes_concat, raw_items};
use crate::image::{apply_writes, byte_after, covered, covers, lemma_apply_writes, writes_within};
use crate::metadata::{magic_bytes, meta_bytes, BtreeMetadata, FORMAT_VERSION, METADATA_LEN};
use crate::node::{count_less, has_id, ids_in, ids_unique, lemma_lookup_at, splits_at, Node};
use crate::rebalance::lemma_lookup_out;
use vstd::utf8::encode_utf8;
use crate::pager::{valid_page_size, zeros, MAX_PAGE_SIZE};
use crate::snapshot::{
    child_ids, children_writes, fits, holds_tree, loadable, node_page_bytes, node_tag, node_writes,
    page_write, same_items, same_tree, snapshot_writes,
};
use crate::{Item, MAX_ITEMS};
use vstd::bytes::spec_u32_from_le_bytes;
use vstd::prelude::*;

verus! {

/// `m` is a node of the subtree at `n`.
pub open spec fn in_tree(n: Node, m: Node) -> bool
    decreases n,
{
    n == m || exists|i: int| #![trigger n.children@[i]] 0 <= i < n.children@.len() && in_tree(*n.children@[i], m)
}

/// No two nodes of the tree share a page id.
pub open spec fn ids_distinct(root: Node) -> bool {
    forall|a: Node, b: Node| #[trigger] in_tree(root, a) && #[trigger] in_tree(root, b) && a.id == b.id ==> a == b
}

/// A node of a subtree has its page id there.
proof fn lemma_in_tree_has_id(n: Node, m: Node)
    requires
        in_tree(n, m),
    ensures
        has_id(n, m.id),
    decreases n,
{
    if n != m {
        let i = choose|i: int| #![trigger n.children@[i]] 0 <= i < n.children@.len() && in_tree(*n.children@[i], m);
        lemma_in_tree_has_id(*n.children@[i], m);
    }
}

/// In a subtree without duplicate ids, a page id names one node.
pub proof fn lemma_unique_distinct(n: Node, a: Node, b: Node)
    requires
        ids_unique(n),
        in_tree(n, a),
        in_tree(n, b),
        a.id == b.id,
    ensures
        a == b,
    decreases n,
{
    if a != n || b != n {
        if a == n {
            let j = choose|j: int| #![trigger n.children@[j]] 0 <= j < n.children@.len() && in_tree(*n.children@[j], b);
            lemma_in_tree_has_id(*n.children@[j], b);
        } else if b == n {
            let i = choose|i: int| #![trigger n.children@[i]] 0 <= i < n.children@.len() && in_tree(*n.children@[i], a);
            lemma_in_tree_has_id(*n.children@[i], a);
        } else {
            let i = choose|i: int| #![trigger n.children@[i]] 0 <= i < n.children@.len() && in_tree(*n.children@[i], a);
            let j = choose|j: int| #![trigger n.children@[j]] 0 <= j < n.children@.len() && in_tree(*n.children@[j], b);
            if i == j {
                lemma_unique_distinct(*n.children@[i], a, b);
            } else {
                lemma_in_tree_has_id(*n.children@[i], a);
                lemma_in_tree_has_id(*n.children@[j], b);
            }
        }
    }
}

proof fn lemma_in_tree_child(root: Node, n: Node, i: int)
    requires
        in_tree(root, n),
        0 <= i < n.children@.len(),
    ensures
        in_tree(root, *n.children@[i]),
    decreases root,
{
    let c = *n.children@[i];
    assert(in_tree(c, c));
    if root != n {
        let j = choose|j: int| #![trigger root.children@[j]] 0 <= j < root.children@.len() && in_tree(*root.children@[j], n);
        lemma_in_tree_child(*root.children@[j], n, i);
    }
}

proof fn lemma_fits_in_tree(root: Node, m: Node, ps: usize, np: u32)
    requires
        fits(root, ps, np),
        in_tree(root, m),
    ensures
        fits(m, ps, np),
    decreases root,
{
    if root != m {
        let j = choose|j: int| #![trigger root.children@[j]] 0 <= j < root.children@.len() && in_tree(*root.children@[j], m);
        lemma_fits_in_tree(*root.children@[j], m, ps, np);
    }
}

/// A page id is the one whose page holds `x`.
proof fn lemma_same_page(a: int, b: int, ps: int, x: int)
    requires
        ps > 0,
        a * ps <= x < (a + 1) * ps,
        b * ps <= x < (b + 1) * ps,
    ensures
        a == b,
{
    if a < b {
        assert((a + 1) * ps <= b * ps) by (nonlinear_arith)
            requires
                a + 1 <= b,
                ps > 0,
        ;
    }
    if b < a {
        assert((b + 1) * ps <= a * ps) by (nonlinear_arith)
            requires
                b + 1 <= a,
                ps > 0,
        ;
    }
}

/// Under a subtree of the tree, every write that covers a byte of node
/// `n`'s page is the write of `n`'s page.
proof fn lemma_nw_cover(root: Node, k: Node, n: Node, ps: usize, np: u32, x: int)
    requires
        in_tree(root, k),
        in_tree(root, n),
        ids_distinct(root),
        fits(root, ps, np),
        ps > 0,
        n.id * ps <= x < (n.id + 1) * ps,
    ensures
        forall|j: int|
            0 <= j < node_writes(k, ps).len() && covers(#[trigger] node_writes(k, ps)[j], x) ==> node_writes(k, ps)[j]
                == page_write(n, ps),
    decreases k, k.children@.len() + 1,
{
    let cw = children_writes(k, k.children@.len() as int, ps);
    lemma_cw_cover(root, k, k.children@.len() as int, n, ps, np, x);
    let w = node_writes(k, ps);
    assert forall|j: int| 0 <= j < w.len() && covers(#[trigger] w[j], x) implies w[j] == page_write(n, ps) by {
        if j < cw.len() {
            assert(w[j] == cw[j]);
        } else {
            assert(w[j] == page_write(k, ps));
            lemma_fits_in_tree(root, k, ps, np);
            assert(page_write(k, ps).1.len() == ps);
            assert((k.id as int + 1) * ps == k.id as int * ps + ps) by (nonlinear_arith);
            lemma_same_page(k.id as int, n.id as int, ps as int, x);
        }
    }
}

proof fn lemma_cw_cover(root: Node, k: Node, i: int, n: Node, ps: usize, np: u32, x: int)
    requires
        in_tree(root, k),
        in_tree(root, n),
        ids_distinct(root),
        fits(root, ps, np),
        ps > 0,
        n.id * ps <= x < (n.id + 1) * ps,
    ensures
        forall|j: int|
            0 <= j < children_writes(k, i, ps).len() && covers(#[trigger] children_writes(k, i, ps)[j], x)
                ==> children_writes(k, i, ps)[j] == page_write(n, ps),
    decreases k, i,
{
    if 0 < i <= k.children@.len() {
        let a = children_writes(k, i - 1, ps);
        let c = *k.children@[i - 1];
        let b = node_writes(c, ps);
        lemma_cw_cover(root, k, i - 1, n, ps, np, x);
        lemma_in_tree_child(root, k, i - 1);
        lemma_nw_cover(root, c, n, ps, np, x);
        let w = children_writes(k, i, ps);
        assert(w == a + b);
        assert forall|j: int| 0 <= j < w.len() && covers(#[trigger] w[j], x) implies w[j] == page_write(n, ps) by {
            if j < a.len() {
                assert(w[j] == a[j]);
            } else {
                assert(w[j] == b[j - a.len()]);
            }
        }
    }
}

/// The writes under a subtree of the tree all lie past the metadata page.
proof fn lemma_nw_past_metadata(root: Node, k: Node, ps: usize, np: u32)
    requires
        in_tree(root, k),
        fits(root, ps, np),
    ensures
        forall|j: int| 0 <= j < node_writes(k, ps).len() ==> (#[trigger] node_writes(k, ps)[j]).0 >= ps,
    decreases k, k.children@.len() + 1,
{
    let cw = children_writes(k, k.children@.len() as int, ps);
    lemma_cw_past_metadata(root, k, k.children@.len() as int, ps, np);
    lemma_fits_in_tree(root, k, ps, np);
    let w = node_writes(k, ps);
    assert forall|j: int| 0 <= j < w.len() implies (#[trigger] w[j]).0 >= ps by {
        if j < cw.len() {
            assert(w[j] == cw[j]);
        } else {
            assert(k.id as int * ps >= ps) by (nonlinear_arith)
                requires
                    k.id >= 1,
                    ps >= 0,
            ;
        }
    }
}

proof fn lemma_cw_past_metadata(root: Node, k: Node, i: int, ps: usize, np: u32)
    requires
        in_tree(root, k),
        fits(root, ps, np),
    ensures
        forall|j: int| 0 <= j < children_writes(k, i, ps).len() ==> (#[trigger] children_writes(k, i, ps)[j]).0 >= ps,
    decreases k, i,
{
    if 0 < i <= k.children@.len() {
        let a = children_writes(k, i - 1, ps);
        let c = *k.children@[i - 1];
        let b = node_writes(c, ps);
        lemma_cw_past_metadata(root, k, i - 1, ps, np);
        lemma_in_tree_child(root, k, i - 1);
        lemma_nw_past_metadata(root, c, ps, np);
        let w = children_writes(k, i, ps);
        assert(w == a + b);
        assert forall|j: int| 0 <= j < w.len() implies (#[trigger] w[j]).0 >= ps by {
            if j < a.len() {
                assert(w[j] == a[j]);
            } else {
                assert(w[j] == b[j - a.len()]);
            }
        }
    }
}

/// The writes under a subtree include the write of each of its nodes.
proof fn lemma_nw_contains(k: Node, n: Node, ps: usize)
    requires
        in_tree(k, n),
    ensures
        exists|j: int| 0 <= j < node_writes(k, ps).len() && #[trigger] node_writes(k, ps)[j] == page_write(n, ps),
    decreases k, k.children@.len() + 1,
{
    let cw = children_writes(k, k.children@.len() as int, ps);
    let w = node_writes(k, ps);
    if k == n {
        assert(w[w.len() - 1] == page_write(n, ps));
    } else {
        let c = choose|c: int| #![trigger k.children@[c]] 0 <= c < k.children@.len() && in_tree(*k.children@[c], n);
        lemma_cw_contains(k, k.children@.len() as int, c, n, ps);
        let j = choose|j: int| 0 <= j < cw.len() && #[trigger] cw[j] == page_write(n, ps);
        assert(w[j] == cw[j]);
    }
}

proof fn lemma_cw_contains(k: Node, i: int, c: int, n: Node, ps: usize)
    requires
        0 <= c < i <= k.children@.len(),
        in_tree(*k.children@[c], n),
    ensures
        exists|j: int| 0 <= j < children_writes(k, i, ps).len() && #[trigger] children_writes(k, i, ps)[j] == page_write(n, ps),
    decreases k, i,
{
    let a = children_writes(k, i - 1, ps);
    let b = node_writes(*k.children@[i - 1], ps);
    let w = children_writes(k, i, ps);
    assert(w == a + b);
    if c == i - 1 {
        lemma_nw_contains(*k.children@[i - 1], n, ps);
        let j = choose|j: int| 0 <= j < b.len() && #[trigger] b[j] == page_write(n, ps);
        assert(w[a.len() + j] == b[j]);
    } else {
        lemma_cw_contains(k, i - 1, c, n, ps);
        let j = choose|j: int| 0 <= j < a.len() && #[trigger] a[j] == page_write(n, ps);
        assert(w[j] == a[j]);
    }
}

/// When every write covering `x` is `e`, the byte at `x` is `e`'s.
proof fn lemma_byte_only(img: Seq<u8>, w: Seq<(int, Seq<u8>)>, x: int, e: (int, Seq<u8>))
    requires
        covered(w, x),
        forall|j: int| 0 <= j < w.len() && covers(#[trigger] w[j], x) ==> w[j] == e,
    ensures
        byte_after(img, w, x) == e.1[x - e.0],
    decreases w.len(),
{
    let n = w.len() - 1;
    assert(w.last() == w[n]);
    if !covers(w[n], x) {
        let p = w.drop_last();
        assert(covered(p, x)) by {
            let j = choose|j: int| 0 <= j < w.len() && covers(#[trigger] w[j], x);
            assert(p[j] == w[j]);
        }
        assert forall|j: int| 0 <= j < p.len() && covers(#[trigger] p[j], x) implies p[j] == e by {
            assert(p[j] == w[j]);
        }
        lemma_byte_only(img, p, x, e);
    }
}

/// A value's bytes are no longer than the stored items.
proof fn lemma_value_len(raw: Seq<(i32, Seq<u8>)>, i: int)
    requires
        0 <= i < raw.len(),
    ensures
        raw[i].1.len() <= items_bytes(raw).len(),
{
    let a = raw.subrange(0, i);
    let e = raw[i];
    let c = raw.subrange(i + 1, raw.len() as int);
    assert(raw =~= a + seq![e] + c);
    lemma_items_bytes_concat(a + seq![e], c);
    lemma_items_bytes_concat(a, seq![e]);
    assert(seq![e].drop_last() =~= Seq::<(i32, Seq<u8>)>::empty());
    assert(seq![e].last() == e);
}

/// What a snapshot's writes leave in the page of a node of the tree: that
/// node's page.
proof fn lemma_region(img0: Seq<u8>, root: Node, n: Node, ps: usize, np: u32, m: BtreeMetadata)
    requires
        in_tree(root, n),
        ids_distinct(root),
        fits(root, ps, np),
        ps >= METADATA_LEN,
        writes_within(snapshot_writes(root, ps, m), img0.len() as int),
    ensures
        apply_writes(img0, snapshot_writes(root, ps, m)).subrange(n.id * ps, (n.id + 1) * ps) == page_write(
            n,
            ps,
        ).1,
{
    vstd::bytes::lemma_auto_spec_u32_to_from_le_bytes();
    vstd::bytes::lemma_auto_spec_u64_to_from_le_bytes();
    let w = snapshot_writes(root, ps, m);
    let nw = node_writes(root, ps);
    let e = page_write(n, ps);
    lemma_fits_in_tree(root, n, ps, np);
    lemma_apply_writes(img0, w);
    lemma_nw_contains(root, n, ps);
    let k = choose|j: int| 0 <= j < nw.len() && #[trigger] nw[j] == e;
    assert(w[k + 1] == nw[k]);
    assert(e.1.len() == ps);
    assert((n.id as int + 1) * ps == n.id as int * ps + ps) by (nonlinear_arith);
    assert(w[k + 1].0 + w[k + 1].1.len() <= img0.len());
    let img1 = apply_writes(img0, w);
    assert forall|x: int| n.id * ps <= x < (n.id + 1) * ps implies #[trigger] img1[x] == e.1[x - e.0] by {
        assert(n.id as int * ps >= ps) by (nonlinear_arith)
            requires
                n.id >= 1,
                ps >= 0,
        ;
        lemma_nw_cover(root, root, n, ps, np, x);
        assert(covers(w[k + 1], x));
        assert forall|j: int| 0 <= j < w.len() && covers(#[trigger] w[j], x) implies w[j] == e by {
            if j == 0 {
                assert(meta_bytes(m).len() == METADATA_LEN);
            } else {
                assert(w[j] == nw[j - 1]);
            }
        }
        lemma_byte_only(img0, w, x, e);
    }
    assert(img1.subrange(n.id * ps, (n.id + 1) * ps) =~= e.1);
}

/// Every node of a subtree of the tree is stored in its page of the
/// snapshot's image, laid out as its page.
proof fn lemma_tree_loadable(
    img0: Seq<u8>,
    root: Node,
    n: Node,
    ps: usize,
    np: u32,
    m: BtreeMetadata,
    d: int,
    lo: int,
    hi: int,
    h: nat,
)
    requires
        in_tree(root, n),
        ids_distinct(root),
        fits(root, ps, np),
        valid_page_size(ps),
        ps >= METADATA_LEN,
        writes_within(snapshot_writes(root, ps, m), img0.len() as int),
        n.wf_at(lo, hi, h),
        h < d,
    ensures
        loadable(apply_writes(img0, snapshot_writes(root, ps, m)), n, ps, np, d),
    decreases h,
{
    let img1 = apply_writes(img0, snapshot_writes(root, ps, m));
    lemma_fits_in_tree(root, n, ps, np);
    lemma_region(img0, root, n, ps, np, m);
    let b = node_page_bytes(n);
    let raw = raw_items(n.items@);
    let region = img1.subrange(n.id * ps, (n.id + 1) * ps);
    assert(region == b + zeros((ps - b.len()) as nat));
    assert(region.subrange(0, b.len() as int) =~= b);
    assert forall|i: int| 0 <= i < raw.len() implies (#[trigger] raw[i]).1.len() <= u32::MAX by {
        lemma_value_len(raw, i);
        assert(items_bytes(raw).len() <= b.len());
    }
    assert(laid_out(region, node_tag(n), raw, child_ids(n)));
    if h > 0 {
        assert forall|i: int| #![trigger n.children@[i]] 0 <= i < n.children@.len() implies loadable(img1, *n.children@[i], ps, np, d - 1) by {
            lemma_in_tree_child(root, n, i);
            assert(n.children@[i].wf_at(n.child_lo(i, lo), n.child_hi(i, hi), (h - 1) as nat));
            lemma_tree_loadable(img0, root, *n.children@[i], ps, np, m, d - 1, n.child_lo(i, lo), n.child_hi(i, hi), (h - 1) as nat);
        }
    }
}

/// Round trip: the image that a snapshot of a tree leaves holds that
/// tree; `load_snapshot` on those bytes therefore succeeds with a tree
/// that has the same page ids, keys, values and fan-out, node by node.
pub proof fn lemma_snapshot_round_trip(t: Btree, m: BtreeMetadata)
    requires
        t.wf(),
        t.root is Some,
        valid_page_size(t.pager.page_size),
        t.pager.page_size >= METADATA_LEN,
        fits(*t.root->0, t.pager.page_size, t.pager.num_pages),
        m.magic@ == magic_bytes(),
        m.version == FORMAT_VERSION,
        m.root_page_id == t.root->0.id,
        m.page_size == t.pager.page_size,
        m.num_pages == t.pager.num_pages,
        writes_within(snapshot_writes(*t.root->0, t.pager.page_size, m), t.pager.image().len() as int),
    ensures
        holds_tree(
            apply_writes(t.pager.image(), snapshot_writes(*t.root->0, t.pager.page_size, m)),
            *t.root->0,
            t.pager.page_size,
            t.height@,
        ),
{
    vstd::bytes::lemma_auto_spec_u32_to_from_le_bytes();
    vstd::bytes::lemma_auto_spec_u64_to_from_le_bytes();
    let root = *t.root->0;
    assert(ids_distinct(root)) by {
        assert forall|a: Node, b: Node| #[trigger] in_tree(root, a) && #[trigger] in_tree(root, b) && a.id == b.id implies a == b by {
            lemma_unique_distinct(root, a, b);
        }
    }
    let ps = t.pager.page_size;
    let np = t.pager.num_pages;
    let img0 = t.pager.image();
    let w = snapshot_writes(root, ps, m);
    let img1 = apply_writes(img0, w);
    let mb = meta_bytes(m);
    let e0 = w[0];
    lemma_apply_writes(img0, w);
    assert(in_tree(root, root));
    assert(mb.len() == METADATA_LEN);
    assert forall|x: int| 0 <= x < METADATA_LEN implies #[trigger] img1[x] == mb[x] by {
        assert(covers(e0, x));
        assert forall|j: int| 0 <= j < w.len() && covers(#[trigger] w[j], x) implies w[j] == e0 by {
            if j > 0 {
                let nw = node_writes(root, ps);
                assert(w[j] == nw[j - 1]);
                lemma_nw_past_metadata(root, root, ps, np);
            }
        }
        lemma_byte_only(img0, w, x, e0);
    }
    assert(img1.subrange(0, METADATA_LEN as int) =~= mb);
    assert(img1.subrange(0, 4) =~= m.magic@);
    assert(img1.subrange(4, 8) =~= mb.subrange(4, 8));
    assert(img1.subrange(8, 12) =~= mb.subrange(8, 12));
    assert(img1.subrange(12, 16) =~= mb.subrange(12, 16));
    assert(img1.subrange(16, 20) =~= mb.subrange(16, 20));
    assert(mb.subrange(4, 8) =~= crate::codec::le32(m.version));
    assert(mb.subrange(8, 12) =~= crate::codec::le32(m.root_page_id));
    assert(mb.subrange(12, 16) =~= crate::codec::le32(m.page_size));
    assert(mb.subrange(16, 20) =~= crate::codec::le32(m.num_pages));
    assert(spec_u32_from_le_bytes(img1.subrange(4, 8)) == FORMAT_VERSION);
    assert(spec_u32_from_le_bytes(img1.subrange(8, 12)) == root.id);
    assert(spec_u32_from_le_bytes(img1.subrange(12, 16)) == ps);
    assert(spec_u32_from_le_bytes(img1.subrange(16, 20)) == np);
    assert((np as int + 1) * ps == img0.len());
    lemma_tree_loadable(img0, root, root, ps, np, m, np as int, key_floor(), key_ceil(), t.height@);
}

/// UTF-8 takes at most four bytes a character.
proof fn lemma_utf8_len(s: Seq<char>)
    ensures
        encode_utf8(s).len() <= 4 * s.len(),
    decreases s.len(),
{
    if s.len() > 0 {
        lemma_utf8_len(s.drop_first());
    }
}

/// Stored items whose values take at most `b` bytes take at most `8 + b`
/// bytes each.
proof fn lemma_items_bytes_len(raw: Seq<(i32, Seq<u8>)>, b: int)
    requires
        b >= 0,
        forall|i: int| 0 <= i < raw.len() ==> (#[trigger] raw[i]).1.len() <= b,
    ensures
        items_bytes(raw).len() <= raw.len() * (8 + b),
    decreases raw.len(),
{
    vstd::bytes::lemma_auto_spec_u32_to_from_le_bytes();
    if raw.len() > 0 {
        let p = raw.drop_last();
        assert forall|i: int| 0 <= i < p.len() implies (#[trigger] p[i]).1.len() <= b by {
            assert(p[i] == raw[i]);
        }
        lemma_items_bytes_len(p, b);
        let e = raw.last();
        assert(e == raw[raw.len() - 1]);
        assert(crate::codec::le32(e.0 as u32).len() == 4);
        assert(crate::codec::le32(e.1.len() as u32).len() == 4);
        let n = raw.len() as int;
        assert((n - 1) * (8 + b) + (8 + b) == n * (8 + b)) by (nonlinear_arith);
    }
}

/// Every node of a B-tree whose values have at most `c` characters, when
/// `33 + 6 * (8 + 4 * c)` bytes fit a page, has its page laid out within a
/// page, on an allocated page id.
proof fn lemma_fits_small(n: Node, lo: int, hi: int, h: nat, ps: usize, np: u32, c: int)
    requires
        n.wf_at(lo, hi, h),
        ids_in(n, np),
        c >= 0,
        33 + 6 * (8 + 4 * c) <= ps,
        forall|k: i32| #[trigger] n.lookup(k) is Some ==> n.lookup(k)->0.len() <= c,
    ensures
        fits(n, ps, np),
    decreases h,
{
    vstd::bytes::lemma_auto_spec_u32_to_from_le_bytes();
    let s = n.items@;
    let raw = raw_items(s);
    assert forall|i: int| 0 <= i < raw.len() implies (#[trigger] raw[i]).1.len() <= 4 * c by {
        assert(splits_at(s, s[i].key, i));
        lemma_lookup_at(n, s[i].key, i);
        lemma_utf8_len(s[i].val@);
        assert(4 * s[i].val@.len() <= 4 * c) by (nonlinear_arith)
            requires
                s[i].val@.len() <= c,
        ;
    }
    lemma_items_bytes_len(raw, 4 * c);
    assert(raw.len() * (8 + 4 * c) <= 6 * (8 + 4 * c)) by (nonlinear_arith)
        requires
            raw.len() <= 6,
            c >= 0,
    ;
    crate::codec::lemma_ids_bytes(child_ids(n), 0);
    assert(child_ids(n).len() <= 7);
    assert(node_page_bytes(n).len() <= ps);
    if h > 0 {
        assert forall|j: int| #![trigger n.children@[j]] 0 <= j < n.children@.len() implies fits(*n.children@[j], ps, np) by {
            let ch = *n.children@[j];
            let clo = n.child_lo(j, lo);
            let chi = n.child_hi(j, hi);
            assert(ch.wf_at(clo, chi, (h - 1) as nat));
            assert forall|k: i32| #[trigger] ch.lookup(k) is Some implies ch.lookup(k)->0.len() <= c by {
                if k <= clo || k >= chi {
                    lemma_lookup_out(ch, clo, chi, (h - 1) as nat, k);
                }
                assert(splits_at(s, k, j));
                lemma_lookup_at(n, k, j);
                assert(n.lookup(k) == ch.lookup(k));
            }
            lemma_fits_small(ch, clo, chi, (h - 1) as nat, ps, np, c);
        }
    }
}

/// Snapshot succeeds on small values: in a tree that the operations leave,
/// whose values have at most `c` characters, every node's page fits when
/// `33 + 6 * (8 + 4 * c)` bytes fit a page; `snapshot` then returns `Ok`
/// for any valid page size of at least the metadata record's length.
pub proof fn lemma_snapshot_fits(t: Btree, c: int)
    requires
        t.wf(),
        t.root is Some,
        c >= 0,
        33 + 6 * (8 + 4 * c) <= t.pager.page_size,
        forall|k: i32| #[trigger] t@.contains_key(k) ==> t@[k].len() <= c,
    ensures
        fits(*t.root->0, t.pager.page_size, t.pager.num_pages),
{
    let r = *t.root->0;
    assert forall|k: i32| #[trigger] r.lookup(k) is Some implies r.lookup(k)->0.len() <= c by {
        assert(t@.contains_key(k));
    }
    lemma_fits_small(r, key_floor(), key_ceil(), t.height@, t.pager.page_size, t.pager.num_pages, c);
}

/// Items with the same keys place every key alike.
proof fn lemma_count_less_same_keys(a: Seq<Item>, b: Seq<Item>, k: i32)
    requires
        same_items(a, b),
    ensures
        count_less(a, k) == count_less(b, k),
    decreases a.len(),
{
    if a.len() > 0 {
        assert(same_items(a.drop_last(), b.drop_last())) by {
            assert forall|i: int| 0 <= i < a.drop_last().len() implies (#[trigger] a.drop_last()[i]).key == b.drop_last()[i].key && a.drop_last()[i].val@ == b.drop_last()[i].val@ by {
                assert(a.drop_last()[i] == a[i]);
                assert(b.drop_last()[i] == b[i]);
            }
        }
        lemma_count_less_same_keys(a.drop_last(), b.drop_last(), k);
        assert(a.last() == a[a.len() - 1]);
        assert(b.last() == b[b.len() - 1]);
    }
}

/// Trees the same node by node answer every lookup alike.
pub proof fn lemma_same_tree_lookup(a: Node, b: Node, k: i32)
    requires
        same_tree(a, b),
    ensures
        a.lookup(k) == b.lookup(k),
    decreases a,
{
    lemma_count_less_same_keys(a.items@, b.items@, k);
    let p = count_less(a.items@, k) as int;
    if p < a.children@.len() {
        lemma_same_tree_lookup(*a.children@[p], *b.children@[p], k);
    }
}

/// A tree loaded back the same node by node as another holds the same
/// keys with the same values.
pub proof fn lemma_same_tree_view(t1: Btree, t2: Btree)
    requires
        t1.root is Some,
        t2.root is Some,
        same_tree(*t1.root->0, *t2.root->0),
    ensures
        t1@ == t2@,
{
    assert forall|k: i32| #[trigger] t1.get(k) == t2.get(k) by {
        lemma_same_tree_lookup(*t1.root->0, *t2.root->0, k);
    }
    assert(t1@ =~= t2@);
}

} // verus!
