//! Properties that hold across operations and of every tree.

use crate::image::{
    apply_writes, covered, covers, lemma_apply_writes, lemma_byte_same_writes, lemma_byte_uncovered,
    writes_within,
};
use crate::codec::{laid_out, le32, page_bytes, raw_items, read_as, Page};
use crate::pager::zeros;
use crate::snapshot::same_items;
use vstd::utf8::{encode_utf8, encode_utf8_decode_utf8, encode_utf8_valid_utf8};
use crate::metadata::{le64, meta_bytes, BtreeMetadata, METADATA_LEN};
use crate::rebalance::lemma_lookup_out;
use crate::snapshot::snapshot_writes;
use crate::btree::{key_ceil, key_floor, with_inserted, Btree};
use crate::node::{count_less, lemma_count_less_at, lemma_lookup_at, lemma_lookup_sorted, splits_at, Node};
use crate::{MAX_ITEMS, MIN_ITEMS};
use vstd::prelude::*;

verus! {

/// `m` after the insertions of `s`, in order.
pub open spec fn after_inserts(m: Map<i32, Seq<char>>, s: Seq<(i32, Seq<char>)>) -> Map<i32, Seq<char>>
    decreases s.len(),
{
    if s.len() == 0 {
        m
    } else {
        with_inserted(after_inserts(m, s.drop_last()), s.last().0, s.last().1)
    }
}

/// A key once present keeps its value through any further insertions.
pub proof fn lemma_present_stays(m: Map<i32, Seq<char>>, s: Seq<(i32, Seq<char>)>, k: i32)
    requires
        m.contains_key(k),
    ensures
        after_inserts(m, s).contains_key(k),
        after_inserts(m, s)[k] == m[k],
    decreases s.len(),
{
    if s.len() > 0 {
        lemma_present_stays(m, s.drop_last(), k);
    }
}

/// Insertions one after another are one run of insertions.
pub proof fn lemma_after_inserts_split(m: Map<i32, Seq<char>>, s: Seq<(i32, Seq<char>)>, i: int)
    requires
        0 <= i <= s.len(),
    ensures
        after_inserts(m, s) == after_inserts(after_inserts(m, s.subrange(0, i)), s.subrange(i, s.len() as int)),
    decreases s.len() - i,
{
    if i < s.len() {
        lemma_after_inserts_split(m, s, i + 1);
        let a = after_inserts(m, s.subrange(0, i));
        let t = s.subrange(i, s.len() as int);
        assert(s.subrange(0, i + 1).drop_last() =~= s.subrange(0, i));
        lemma_prepend(a, s[i], s.subrange(i + 1, s.len() as int));
        assert(seq![s[i]] + s.subrange(i + 1, s.len() as int) =~= t);
    } else {
        assert(s.subrange(0, s.len() as int) =~= s);
        assert(s.subrange(i, s.len() as int) =~= Seq::<(i32, Seq<char>)>::empty());
    }
}

/// Inserting `e` first and then `s` is inserting `e` followed by `s`.
pub proof fn lemma_prepend(m: Map<i32, Seq<char>>, e: (i32, Seq<char>), s: Seq<(i32, Seq<char>)>)
    ensures
        after_inserts(with_inserted(m, e.0, e.1), s) == after_inserts(m, seq![e] + s),
    decreases s.len(),
{
    let t = seq![e] + s;
    if s.len() == 0 {
        assert(t.drop_last() =~= Seq::<(i32, Seq<char>)>::empty());
        assert(after_inserts(m, t.drop_last()) == m);
        assert(t.last() == e);
    } else {
        lemma_prepend(m, e, s.drop_last());
        assert(t.drop_last() =~= seq![e] + s.drop_last());
        assert(t.last() == s.last());
    }
}

/// Search after insert: an insertion of `(k, v)` into a tree without `k`,
/// followed by no other insertion of `k`, leaves `v` under `k`.
pub proof fn lemma_search_after_insert(m: Map<i32, Seq<char>>, s: Seq<(i32, Seq<char>)>, i: int)
    requires
        0 <= i < s.len(),
        !after_inserts(m, s.subrange(0, i)).contains_key(s[i].0),
        forall|j: int| i < j < s.len() ==> (#[trigger] s[j]).0 != s[i].0,
    ensures
        after_inserts(m, s).contains_key(s[i].0),
        after_inserts(m, s)[s[i].0] == s[i].1,
{
    lemma_after_inserts_split(m, s, i + 1);
    let a = after_inserts(m, s.subrange(0, i + 1));
    assert(s.subrange(0, i + 1).drop_last() =~= s.subrange(0, i));
    assert(a.contains_key(s[i].0) && a[s[i].0] == s[i].1);
    lemma_present_stays(a, s.subrange(i + 1, s.len() as int), s[i].0);
}

/// Duplicate preservation: when `(k, v1)` is inserted into a tree without
/// `k` and `(k, v2)` later, `k` keeps `v1`.
pub proof fn lemma_duplicate_preserved(m: Map<i32, Seq<char>>, k: i32, v1: Seq<char>, v2: Seq<char>)
    requires
        !m.contains_key(k),
    ensures
        with_inserted(with_inserted(m, k, v1), k, v2)[k] == v1,
        with_inserted(with_inserted(m, k, v1), k, v2) == with_inserted(m, k, v1),
{
}

/// Every leaf of the subtree lies `d` levels down.
pub open spec fn leaves_at(n: Node, d: nat) -> bool
    decreases n,
{
    if n.children@.len() == 0 {
        d == 0
    } else {
        &&& d > 0
        &&& forall|i: int|
            #![trigger n.children@[i]]
            0 <= i < n.children@.len() ==> leaves_at(*n.children@[i], (d - 1) as nat)
    }
}

/// Every node of the subtree holds at most `MAX_ITEMS` items and, below
/// the subtree's own node, at least `MIN_ITEMS`; an internal node has one
/// more child than items.
pub open spec fn occupied(n: Node, top: bool) -> bool
    decreases n,
{
    &&& n.items@.len() <= MAX_ITEMS
    &&& !top ==> n.items@.len() >= MIN_ITEMS
    &&& n.children@.len() > 0 ==> n.children@.len() == n.items@.len() + 1
    &&& forall|i: int|
        #![trigger n.children@[i]]
        0 <= i < n.children@.len() ==> occupied(*n.children@[i], false)
}

proof fn lemma_wf_leaves(n: Node, lo: int, hi: int, h: nat)
    requires
        n.wf_at(lo, hi, h),
    ensures
        leaves_at(n, h),
    decreases h,
{
    if h > 0 {
        assert forall|i: int| #![trigger n.children@[i]] 0 <= i < n.children@.len() implies leaves_at(
            *n.children@[i],
            (h - 1) as nat,
        ) by {
            lemma_wf_leaves(*n.children@[i], n.child_lo(i, lo), n.child_hi(i, hi), (h - 1) as nat);
        }
    }
}

proof fn lemma_wf_occupied(n: Node, lo: int, hi: int, h: nat, top: bool)
    requires
        n.wf_at(lo, hi, h),
        !top ==> n.items@.len() >= MIN_ITEMS,
    ensures
        occupied(n, top),
    decreases h,
{
    if h > 0 {
        assert forall|i: int| #![trigger n.children@[i]] 0 <= i < n.children@.len() implies occupied(
            *n.children@[i],
            false,
        ) by {
            lemma_wf_occupied(*n.children@[i], n.child_lo(i, lo), n.child_hi(i, hi), (h - 1) as nat, false);
        }
    }
}

/// Height balance: in every tree that the operations leave, all leaves lie
/// at the same depth.
pub proof fn lemma_height_balance(t: Btree)
    requires
        t.wf(),
    ensures
        t.root is Some ==> leaves_at(*t.root->0, t.height@),
{
    if t.root is Some {
        lemma_wf_leaves(*t.root->0, key_floor(), key_ceil(), t.height@);
    }
}

/// Occupancy: in every tree that the operations leave, each node below
/// the root holds between `MIN_ITEMS` and `MAX_ITEMS` items, and a root
/// that holds a key holds between 1 and `MAX_ITEMS` items.
pub proof fn lemma_occupancy(t: Btree)
    requires
        t.wf(),
    ensures
        t.root is Some ==> occupied(*t.root->0, true),
        t.root is Some && (exists|k: i32| t@.contains_key(k)) ==> 1 <= t.root->0.items@.len() <= MAX_ITEMS,
{
    if t.root is Some {
        let r = *t.root->0;
        lemma_wf_occupied(r, key_floor(), key_ceil(), t.height@, true);
        if r.items@.len() == 0 && t.height@ == 0 {
            assert(t@ =~= Map::<i32, Seq<char>>::empty());
        }
    }
}

/// The keys of the subtree in in-order traversal.
pub open spec fn inorder(n: Node) -> Seq<i32>
    decreases n, n.children@.len() + 1,
{
    if n.children@.len() == 0 {
        Seq::new(n.items@.len(), |i: int| n.items@[i].key)
    } else {
        inorder_from(n, 0)
    }
}

/// The in-order keys from child `i` on: child `i`, separator `i`, and on.
pub open spec fn inorder_from(n: Node, i: int) -> Seq<i32>
    decreases n, n.children@.len() - i,
{
    if i < 0 || i >= n.children@.len() {
        Seq::empty()
    } else {
        inorder(*n.children@[i]) + (if i < n.items@.len() {
            seq![n.items@[i].key]
        } else {
            Seq::empty()
        }) + inorder_from(n, i + 1)
    }
}

/// Strictly increasing, and strictly between `lo` and `hi`.
pub open spec fn ascending_between(s: Seq<i32>, lo: int, hi: int) -> bool {
    &&& forall|i: int, j: int| 0 <= i < j < s.len() ==> s[i] < s[j]
    &&& forall|i: int| 0 <= i < s.len() ==> lo < #[trigger] s[i] < hi
}

proof fn lemma_concat_ascending(a: Seq<i32>, b: Seq<i32>, lo: int, mid: int, hi: int)
    requires
        lo < mid <= hi,
        ascending_between(a, lo, mid),
        ascending_between(b, mid - 1, hi),
    ensures
        ascending_between(a + b, lo, hi),
{
    let c = a + b;
    assert forall|i: int, j: int| 0 <= i < j < c.len() implies c[i] < c[j] by {
        if j < a.len() {
        } else if i >= a.len() {
            assert(c[i] == b[i - a.len()]);
            assert(c[j] == b[j - a.len()]);
        } else {
            assert(c[i] == a[i]);
            assert(c[j] == b[j - a.len()]);
        }
    }
    assert forall|i: int| 0 <= i < c.len() implies lo < #[trigger] c[i] < hi by {
        if i < a.len() {
            assert(c[i] == a[i]);
        } else {
            assert(c[i] == b[i - a.len()]);
        }
    }
}

/// The in-order keys of a B-tree ascend within its bounds and are exactly
/// the keys it stores.
pub proof fn lemma_inorder(n: Node, lo: int, hi: int, h: nat)
    requires
        n.wf_at(lo, hi, h),
    ensures
        ascending_between(inorder(n), lo, hi),
        forall|k: i32| #[trigger] inorder(n).contains(k) <==> n.lookup(k) is Some,
    decreases n, n.children@.len() + 1,
{
    let s = n.items@;
    if h == 0 {
        let t = inorder(n);
        assert forall|k: i32| #[trigger] t.contains(k) <==> n.lookup(k) is Some by {
            lemma_lookup_sorted(n, k);
            let q = count_less(s, k) as int;
            lemma_lookup_at(n, k, q);
            if t.contains(k) {
                let j = choose|j: int| 0 <= j < t.len() && t[j] == k;
                assert(splits_at(s, k, j));
                lemma_count_less_at(s, k, j);
            }
            if n.lookup(k) is Some {
                assert(t[q] == k);
            }
        }
    } else {
        lemma_inorder_from(n, 0, lo, hi, h);
        assert forall|k: i32| #[trigger] inorder(n).contains(k) <==> n.lookup(k) is Some by {
            if k <= lo {
                lemma_lookup_out(n, lo, hi, h, k);
            }
        }
    }
}

/// The in-order keys from child `i` on ascend from that child's lower
/// bound and are exactly the stored keys above it.
pub proof fn lemma_inorder_from(n: Node, i: int, lo: int, hi: int, h: nat)
    requires
        n.wf_at(lo, hi, h),
        h > 0,
        0 <= i <= n.children@.len(),
    ensures
        i < n.children@.len() ==> ascending_between(inorder_from(n, i), n.child_lo(i, lo), hi),
        i < n.children@.len() ==> forall|k: i32|
            #[trigger] inorder_from(n, i).contains(k) <==> (k > n.child_lo(i, lo) && n.lookup(k) is Some),
        inorder_from(n, i).len() == 0 <==> i == n.children@.len(),
    decreases n, n.children@.len() - i,
{
    let s = n.items@;
    let len = s.len() as int;
    if i < n.children@.len() {
        let c = *n.children@[i];
        let clo = n.child_lo(i, lo);
        let chi = n.child_hi(i, hi);
        assert(c.wf_at(clo, chi, (h - 1) as nat));
        lemma_inorder(c, clo, chi, (h - 1) as nat);
        lemma_inorder_from(n, i + 1, lo, hi, h);
        let a = inorder(c);
        let mid: Seq<i32> = if i < len {
            seq![s[i].key]
        } else {
            Seq::empty()
        };
        let b = inorder_from(n, i + 1);
        assert(inorder_from(n, i) == a + mid + b);
        if i < len {
            assert(ascending_between(mid, chi - 1, chi + 1));
            lemma_concat_ascending(a, mid, clo, chi, chi + 1);
            if b.len() > 0 {
                lemma_concat_ascending(a + mid, b, clo, chi + 1, hi);
            } else {
                assert(a + mid + b =~= a + mid);
                assert(ascending_between(a + mid, clo, hi));
            }
        } else {
            assert(i + 1 == n.children@.len());
            assert(a + mid + b =~= a);
        }
        assert forall|k: i32| #[trigger] inorder_from(n, i).contains(k) <==> (k > clo && n.lookup(k) is Some) by {
            lemma_lookup_sorted(n, k);
            let q = count_less(s, k) as int;
            lemma_lookup_at(n, k, q);
            let t = a + mid + b;
            if k > clo && k < chi {
                assert(splits_at(s, k, i));
                lemma_count_less_at(s, k, i);
                if a.contains(k) {
                    let j = choose|j: int| 0 <= j < a.len() && a[j] == k;
                    assert(t[j] == k);
                }
                if t.contains(k) {
                    let j = choose|j: int| 0 <= j < t.len() && t[j] == k;
                    if j >= a.len() {
                        assert(t[j] >= chi);
                    } else {
                        assert(a[j] == k);
                    }
                }
            } else if k == chi && i < len {
                assert(t[a.len() as int] == k);
                assert(splits_at(s, k, i));
                lemma_count_less_at(s, k, i);
            } else if k > chi {
                if b.contains(k) {
                    let j = choose|j: int| 0 <= j < b.len() && b[j] == k;
                    assert(t[a.len() + mid.len() + j] == k);
                }
                if t.contains(k) {
                    let j = choose|j: int| 0 <= j < t.len() && t[j] == k;
                    if j < a.len() {
                        assert(a[j] < chi);
                    } else if j < a.len() + mid.len() {
                    } else {
                        assert(b[j - a.len() - mid.len()] == k);
                    }
                }
            } else {
                if t.contains(k) {
                    let j = choose|j: int| 0 <= j < t.len() && t[j] == k;
                    if j < a.len() {
                        assert(a[j] > clo);
                    } else if j < a.len() + mid.len() {
                    } else {
                        assert(b[j - a.len() - mid.len()] > clo);
                    }
                }
                if k <= clo && n.lookup(k) is Some {
                    if i > 0 {
                        assert(q <= i - 1 || s[i - 1].key == k);
                    }
                }
            }
        }
    }
}

/// Sorted insert: the in-order traversal of every tree that the
/// operations leave lists its keys, each once, in ascending order.
pub proof fn lemma_sorted_inorder(t: Btree)
    requires
        t.wf(),
        t.root is Some,
    ensures
        forall|i: int, j: int| 0 <= i < j < inorder(*t.root->0).len() ==> inorder(*t.root->0)[i] < inorder(*t.root->0)[j],
        forall|k: i32| #[trigger] inorder(*t.root->0).contains(k) <==> t@.contains_key(k),
{
    lemma_inorder(*t.root->0, key_floor(), key_ceil(), t.height@);
}

/// Idempotent snapshot: of two snapshots of the same tree, one after the
/// other, with metadata records that differ at most in their timestamps,
/// the second leaves an image equal to the first's but in the timestamp's
/// bytes (20 to 27).
pub proof fn lemma_idempotent_snapshot(
    img0: Seq<u8>,
    root: Node,
    page_size: usize,
    m1: BtreeMetadata,
    m2: BtreeMetadata,
)
    requires
        m1.magic@ == m2.magic@,
        m1.version == m2.version,
        m1.root_page_id == m2.root_page_id,
        m1.page_size == m2.page_size,
        m1.num_pages == m2.num_pages,
        page_size >= METADATA_LEN,
        writes_within(snapshot_writes(root, page_size, m1), img0.len() as int),
        writes_within(snapshot_writes(root, page_size, m2), img0.len() as int),
    ensures
        ({
            let img1 = apply_writes(img0, snapshot_writes(root, page_size, m1));
            let img2 = apply_writes(img1, snapshot_writes(root, page_size, m2));
            &&& img2.len() == img1.len()
            &&& forall|x: int| 0 <= x < img1.len() && !(20 <= x < 28) ==> #[trigger] img2[x] == img1[x]
        }),
{
    let w1 = snapshot_writes(root, page_size, m1);
    let w2 = snapshot_writes(root, page_size, m2);
    let img1 = apply_writes(img0, w1);
    lemma_apply_writes(img0, w1);
    lemma_apply_writes(img1, w2);
    let img2 = apply_writes(img1, w2);
    vstd::bytes::lemma_auto_spec_u32_to_from_le_bytes();
    vstd::bytes::lemma_auto_spec_u64_to_from_le_bytes();
    let b1 = meta_bytes(m1);
    let b2 = meta_bytes(m2);
    assert(b1.len() == 28 && b2.len() == 28);
    assert(b1.subrange(0, 20) =~= b2.subrange(0, 20));
    assert forall|i: int| 0 <= i < w1.len() implies (#[trigger] w1[i]).0 == w2[i].0 && w1[i].1.len() == w2[i].1.len() by {
        if i > 0 {
            assert(w1[i] == w2[i]);
        }
    }
    assert forall|x: int| 0 <= x < img1.len() && !(20 <= x < 28) implies #[trigger] img2[x] == img1[x] by {
        assert forall|i: int| 0 <= i < w1.len() && covers(#[trigger] w1[i], x) implies w1[i].1[x - w1[i].0] == w2[i].1[x - w2[i].0] by {
            if i == 0 {
                if x < 20 {
                    assert(w1[0].1[x] == b1[x]);
                    assert(w2[0].1[x] == b2[x]);
                    assert(b1.subrange(0, 20)[x] == b2.subrange(0, 20)[x]);
                } else {
                    assert(w1[0].1[x] == 0u8);
                    assert(w2[0].1[x] == 0u8);
                }
            } else {
                assert(w1[i] == w2[i]);
            }
        }
        if covered(w1, x) {
            lemma_byte_same_writes(img0, img1, w1, w2, x);
        } else {
            assert(!covered(w2, x)) by {
                if covered(w2, x) {
                    let i = choose|i: int| 0 <= i < w2.len() && covers(#[trigger] w2[i], x);
                    assert(covers(w1[i], x));
                }
            }
            lemma_byte_uncovered(img1, w2, x);
        }
    }
}

/// Metadata round trip: a record is determined by its layout, so reading
/// back what `serialize` wrote gives the same record.
pub proof fn lemma_metadata_round_trip(a: BtreeMetadata, b: BtreeMetadata)
    requires
        meta_bytes(a) == meta_bytes(b),
    ensures
        a == b,
{
    vstd::bytes::lemma_auto_spec_u32_to_from_le_bytes();
    vstd::bytes::lemma_auto_spec_u64_to_from_le_bytes();
    let x = meta_bytes(a);
    let y = meta_bytes(b);
    assert(x.subrange(0, 4) =~= a.magic@);
    assert(y.subrange(0, 4) =~= b.magic@);
    assert(a.magic =~= b.magic) by {
        assert forall|i: int| 0 <= i < 4 implies a.magic[i] == b.magic[i] by {
            assert(a.magic@[i] == x[i]);
            assert(b.magic@[i] == y[i]);
        }
    }
    assert(x.subrange(4, 8) =~= le32(a.version));
    assert(y.subrange(4, 8) =~= le32(b.version));
    assert(x.subrange(8, 12) =~= le32(a.root_page_id));
    assert(y.subrange(8, 12) =~= le32(b.root_page_id));
    assert(x.subrange(12, 16) =~= le32(a.page_size));
    assert(y.subrange(12, 16) =~= le32(b.page_size));
    assert(x.subrange(16, 20) =~= le32(a.num_pages));
    assert(y.subrange(16, 20) =~= le32(b.num_pages));
    assert(x.subrange(20, 28) =~= le64(a.created_at));
    assert(y.subrange(20, 28) =~= le64(b.created_at));
}

/// Page round trip: the bytes that `encode_page` makes of a page, its
/// layout padded with zeros, are laid out as that page; and a page read
/// from that layout (as `decode_page` reads it) has the same tag, child
/// ids, keys and values.
pub proof fn lemma_page_round_trip(p: Page, pad: nat, q: Page)
    requires
        p.tag() == 1 ==> p.child_seq().len() == p.item_seq().len() + 1,
        p.item_seq().len() <= u32::MAX,
        forall|i: int| 0 <= i < p.item_seq().len() ==> encode_utf8((#[trigger] p.item_seq()[i]).val@).len() <= u32::MAX,
    ensures
        laid_out(page_bytes(p) + zeros(pad), p.tag(), raw_items(p.item_seq()), p.child_seq()),
        read_as(q, p.tag(), raw_items(p.item_seq()), p.child_seq()) ==> {
            &&& q.tag() == p.tag()
            &&& q.child_seq() == p.child_seq()
            &&& same_items(q.item_seq(), p.item_seq())
        },
{
    let raw = raw_items(p.item_seq());
    let b = page_bytes(p) + zeros(pad);
    assert(b.subrange(0, page_bytes(p).len() as int) =~= page_bytes(p));
    assert forall|i: int| 0 <= i < raw.len() implies (#[trigger] raw[i]).1.len() <= u32::MAX by {
        assert(raw[i].1 == encode_utf8(p.item_seq()[i].val@));
    }
    if read_as(q, p.tag(), raw, p.child_seq()) {
        assert forall|i: int| 0 <= i < q.item_seq().len() implies (#[trigger] q.item_seq()[i]).key == p.item_seq()[i].key
            && q.item_seq()[i].val@ == p.item_seq()[i].val@ by {
            let v = p.item_seq()[i].val@;
            assert(raw[i] == (p.item_seq()[i].key, encode_utf8(v)));
            encode_utf8_valid_utf8(v);
            encode_utf8_decode_utf8(v);
            encode_utf8_decode_utf8(q.item_seq()[i].val@);
        }
    }
}

} // verus!
