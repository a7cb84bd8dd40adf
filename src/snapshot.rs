use crate::btree::{key_ceil, key_floor, Btree};
use crate::codec::{decodes_to, laid_out, le32, lossy_utf8, page_bytes, page_image, raw_items, read_as, Page};
use vstd::utf8::{encode_utf8, encode_utf8_decode_utf8, encode_utf8_valid_utf8};
use crate::metadata::{magic_bytes, meta_bytes, BtreeMetadata, FORMAT_VERSION, METADATA_LEN};
use crate::image::{apply_writes, writes_within};
use crate::node::{has_id, ids_in, ids_unique, lemma_has_id_in, sorted_between, Node};
use crate::pager::{overwrite, valid_page_size, zeros, Pager, MAX_PAGE_SIZE};
use crate::{BtreeError, Item, MAX_ITEMS, MIN_ITEMS};
use vstd::bytes::spec_u32_from_le_bytes;
use vstd::prelude::*;
use vstd::slice::slice_subrange;

verus! {

/// Same keys and same values, position by position.
pub open spec fn same_items(a: Seq<Item>, b: Seq<Item>) -> bool {
    &&& a.len() == b.len()
    &&& forall|i: int| 0 <= i < a.len() ==> (#[trigger] a[i]).key == b[i].key && a[i].val@ == b[i].val@
}

/// The page ids of a node's children.
pub open spec fn child_ids(n: Node) -> Seq<u32> {
    Seq::new(n.children@.len(), |i: int| n.children@[i].id)
}

/// The meaningful bytes of the page that stores a node.
pub open spec fn node_page_bytes(n: Node) -> Seq<u8> {
    page_image(
        if n.children@.len() == 0 {
            0u8
        } else {
            1u8
        },
        raw_items(n.items@),
        child_ids(n),
    )
}

/// Every node of the subtree has an allocated page id and a page layout
/// that fits in a page.
pub open spec fn fits(n: Node, page_size: usize, num_pages: u32) -> bool
    decreases n,
{
    &&& 1 <= n.id <= num_pages
    &&& node_page_bytes(n).len() <= page_size
    &&& forall|i: int|
        #![trigger n.children@[i]]
        0 <= i < n.children@.len() ==> fits(*n.children@[i], page_size, num_pages)
}

/// The tag of the page that stores a node: 0 for a leaf, 1 otherwise.
pub open spec fn node_tag(n: Node) -> u8 {
    if n.children@.len() == 0 {
        0
    } else {
        1
    }
}

/// The same page ids, keys, values, item counts and fan-out, node by node.
pub open spec fn same_tree(a: Node, b: Node) -> bool
    decreases a,
{
    &&& a.id == b.id
    &&& same_items(a.items@, b.items@)
    &&& a.num_items == b.num_items
    &&& a.children@.len() == b.children@.len()
    &&& forall|i: int|
        #![trigger a.children@[i]]
        0 <= i < a.children@.len() ==> same_tree(*a.children@[i], *b.children@[i])
}

/// Each node of the subtree, no deeper than `depth` levels, is stored in
/// the page of its id within `img`, laid out as its page.
pub open spec fn loadable(img: Seq<u8>, n: Node, page_size: usize, num_pages: u32, depth: int) -> bool
    decreases n,
{
    &&& depth > 0
    &&& 1 <= n.id <= num_pages
    &&& n.num_items == n.items@.len() <= MAX_ITEMS
    &&& laid_out(
        img.subrange(n.id * page_size, (n.id + 1) * page_size),
        node_tag(n),
        raw_items(n.items@),
        child_ids(n),
    )
    &&& forall|i: int|
        #![trigger n.children@[i]]
        0 <= i < n.children@.len() ==> loadable(img, *n.children@[i], page_size, num_pages, depth - 1)
}

/// `b` begins with node `n` laid out with stored items `raw`, the node's
/// values being what lossy UTF-8 decoding makes of the stored bytes.
pub open spec fn stored_as(b: Seq<u8>, n: Node, raw: Seq<(i32, Seq<u8>)>) -> bool {
    &&& raw.len() == n.items@.len()
    &&& forall|i: int|
        0 <= i < raw.len() ==> {
            &&& (#[trigger] raw[i]).0 == n.items@[i].key
            &&& n.items@[i].val@ == lossy_utf8(raw[i].1)
        }
    &&& page_image(node_tag(n), raw, child_ids(n)).len() <= b.len()
    &&& b.subrange(0, page_image(node_tag(n), raw, child_ids(n)).len() as int) == page_image(
        node_tag(n),
        raw,
        child_ids(n),
    )
}

/// Every node of the subtree is what the page of its id within `img`
/// stores: an allocated page whose layout gives the node's items and its
/// children's page ids.
pub open spec fn read_from(img: Seq<u8>, n: Node, page_size: usize, num_pages: u32) -> bool
    decreases n,
{
    &&& 1 <= n.id <= num_pages
    &&& n.num_items == n.items@.len()
    &&& exists|raw: Seq<(i32, Seq<u8>)>| #[trigger] stored_as(img.subrange(n.id * page_size, (n.id + 1) * page_size), n, raw)
    &&& forall|i: int|
        #![trigger n.children@[i]]
        0 <= i < n.children@.len() ==> read_from(img, *n.children@[i], page_size, num_pages)
}

/// Nodes read from pages have the ids of allocated pages.
proof fn lemma_read_from_ids(img: Seq<u8>, n: Node, ps: usize, np: u32)
    requires
        read_from(img, n, ps, np),
    ensures
        ids_in(n, np),
    decreases n,
{
    assert forall|i: int| #![trigger n.children@[i]] 0 <= i < n.children@.len() implies ids_in(*n.children@[i], np) by {
        lemma_read_from_ids(img, *n.children@[i], ps, np);
    }
}

/// A page read from a node's layout holds the node's keys and values.
proof fn lemma_read_items(page: Page, n: Node)
    requires
        read_as(page, node_tag(n), raw_items(n.items@), child_ids(n)),
    ensures
        same_items(page.item_seq(), n.items@),
{
    let raw = raw_items(n.items@);
    assert forall|i: int| 0 <= i < page.item_seq().len() implies (#[trigger] page.item_seq()[i]).key == n.items@[i].key
        && page.item_seq()[i].val@ == n.items@[i].val@ by {
        let v = n.items@[i].val@;
        assert(raw[i] == (n.items@[i].key, encode_utf8(v)));
        encode_utf8_valid_utf8(v);
        encode_utf8_decode_utf8(v);
        encode_utf8_decode_utf8(page.item_seq()[i].val@);
    }
}

/// `b` opens with the magic bytes and this format's version.
pub open spec fn header_ok(b: Seq<u8>) -> bool {
    &&& b.len() >= METADATA_LEN
    &&& b.subrange(0, 4) == magic_bytes()
    &&& spec_u32_from_le_bytes(b.subrange(4, 8)) == FORMAT_VERSION
}

/// The page size recorded in a metadata record at the start of `b`.
pub open spec fn recorded_page_size(b: Seq<u8>) -> u32 {
    spec_u32_from_le_bytes(b.subrange(12, 16))
}

/// The root page id recorded in a metadata record at the start of `b`.
pub open spec fn recorded_root(b: Seq<u8>) -> u32 {
    spec_u32_from_le_bytes(b.subrange(8, 12))
}

/// The page count recorded in a metadata record at the start of `b`.
pub open spec fn recorded_num_pages(b: Seq<u8>) -> u32 {
    spec_u32_from_le_bytes(b.subrange(16, 20))
}

/// `b` holds a snapshot of a B-tree of height `h` under `root`: a
/// metadata record of this format for the page size, naming the root's
/// page (a recorded 0 names page 1), as many pages as it records, and
/// every node, each with its own page id, stored in its page.
pub open spec fn holds_tree(b: Seq<u8>, root: Node, page_size: usize, h: nat) -> bool {
    &&& header_ok(b)
    &&& recorded_page_size(b) == page_size
    &&& valid_page_size(page_size)
    &&& (recorded_root(b) == root.id || (recorded_root(b) == 0 && root.id == 1))
    &&& (recorded_num_pages(b) + 1) * page_size <= b.len()
    &&& loadable(b, root, page_size, recorded_num_pages(b), recorded_num_pages(b) as int)
    &&& root.wf_at(key_floor(), key_ceil(), h)
    &&& h > 0 ==> root.items@.len() >= 1
    &&& ids_unique(root)
}

/// What is stored page by page in the pages below `len` is stored so in
/// the first `len` bytes.
proof fn lemma_loadable_prefix(b: Seq<u8>, n: Node, ps: usize, np: u32, d: int, len: int)
    requires
        loadable(b, n, ps, np, d),
        (np + 1) * ps <= len <= b.len(),
    ensures
        loadable(b.subrange(0, len), n, ps, np, d),
    decreases d,
{
    let p = b.subrange(0, len);
    assert((n.id as int + 1) * ps <= (np as int + 1) * ps) by (nonlinear_arith)
        requires
            n.id <= np,
            ps >= 0,
    ;
    assert((n.id as int + 1) * ps == n.id as int * ps + ps) by (nonlinear_arith);
    assert(p.subrange(n.id * ps, (n.id + 1) * ps) =~= b.subrange(n.id * ps, (n.id + 1) * ps));
    assert forall|i: int| #![trigger n.children@[i]] 0 <= i < n.children@.len() implies loadable(p, *n.children@[i], ps, np, d - 1) by {
        lemma_loadable_prefix(b, *n.children@[i], ps, np, d - 1, len);
    }
}

/// A subtree stored no deeper than `d` levels has height below `d`.
proof fn lemma_loadable_height(b: Seq<u8>, n: Node, ps: usize, np: u32, d: int, lo: int, hi: int, h: nat)
    requires
        loadable(b, n, ps, np, d),
        n.wf_at(lo, hi, h),
    ensures
        h < d,
    decreases h,
{
    if h > 0 {
        assert(n.children@[0].wf_at(n.child_lo(0, lo), n.child_hi(0, hi), (h - 1) as nat));
        lemma_loadable_height(b, *n.children@[0], ps, np, d - 1, n.child_lo(0, lo), n.child_hi(0, hi), (h - 1) as nat);
    }
}

/// Trees the same node by node hold the same page ids.
proof fn lemma_same_tree_has_id(a: Node, b: Node, x: u32)
    requires
        same_tree(a, b),
    ensures
        has_id(a, x) == has_id(b, x),
    decreases a,
{
    if a.id != x {
        if has_id(a, x) {
            let i = choose|i: int| #![trigger a.children@[i]] 0 <= i < a.children@.len() && has_id(*a.children@[i], x);
            lemma_same_tree_has_id(*a.children@[i], *b.children@[i], x);
            assert(has_id(*b.children@[i], x));
        }
        if has_id(b, x) {
            let i = choose|i: int| #![trigger b.children@[i]] 0 <= i < b.children@.len() && has_id(*b.children@[i], x);
            assert(same_tree(*a.children@[i], *b.children@[i]));
            lemma_same_tree_has_id(*a.children@[i], *b.children@[i], x);
        }
    }
}

/// A tree the same node by node as one without duplicate ids has none.
proof fn lemma_same_tree_unique(a: Node, b: Node)
    requires
        same_tree(a, b),
        ids_unique(b),
    ensures
        ids_unique(a),
    decreases a,
{
    assert forall|i: int| #![trigger a.children@[i]] 0 <= i < a.children@.len() implies !has_id(*a.children@[i], a.id) && ids_unique(*a.children@[i]) by {
        lemma_same_tree_has_id(*a.children@[i], *b.children@[i], a.id);
        lemma_same_tree_unique(*a.children@[i], *b.children@[i]);
    }
    assert forall|i: int, j: int, x: u32| 0 <= i < a.children@.len() && 0 <= j < a.children@.len() && i != j && #[trigger] has_id(*a.children@[i], x) implies !#[trigger] has_id(*a.children@[j], x) by {
        assert(same_tree(*a.children@[i], *b.children@[i]));
        assert(same_tree(*a.children@[j], *b.children@[j]));
        lemma_same_tree_has_id(*a.children@[i], *b.children@[i], x);
        lemma_same_tree_has_id(*a.children@[j], *b.children@[j], x);
    }
}

/// A tree the same as a B-tree is a B-tree.
proof fn lemma_same_tree_wf(a: Node, b: Node, lo: int, hi: int, h: nat)
    requires
        same_tree(a, b),
        b.wf_at(lo, hi, h),
    ensures
        a.wf_at(lo, hi, h),
    decreases h,
{
    assert(sorted_between(a.items@, lo, hi)) by {
        assert forall|x: int, y: int| 0 <= x < y < a.items@.len() implies a.items@[x].key < a.items@[y].key by {
            assert(b.items@[x].key < b.items@[y].key);
        }
        assert forall|x: int| 0 <= x < a.items@.len() implies lo < #[trigger] a.items@[x].key < hi by {
            assert(a.items@[x].key == b.items@[x].key);
        }
    }
    if h > 0 {
        assert forall|i: int| #![trigger a.children@[i]] 0 <= i < a.children@.len() implies {
            &&& a.children@[i].items.len() >= MIN_ITEMS
            &&& a.children@[i].wf_at(a.child_lo(i, lo), a.child_hi(i, hi), (h - 1) as nat)
        } by {
            assert(b.children@[i].wf_at(b.child_lo(i, lo), b.child_hi(i, hi), (h - 1) as nat));
            assert(same_tree(*a.children@[i], *b.children@[i]));
            assert(same_items(a.children@[i].items@, b.children@[i].items@));
            assert(a.child_lo(i, lo) == b.child_lo(i, lo));
            assert(a.child_hi(i, hi) == b.child_hi(i, hi));
            lemma_same_tree_wf(*a.children@[i], *b.children@[i], a.child_lo(i, lo), a.child_hi(i, hi), (h - 1) as nat);
        }
    }
}

/// The write that stores a node's page.
pub open spec fn page_write(n: Node, page_size: usize) -> (int, Seq<u8>) {
    (n.id * page_size, node_page_bytes(n) + zeros((page_size - node_page_bytes(n).len()) as nat))
}

/// The writes that store a subtree's pages, children before parents.
pub open spec fn node_writes(n: Node, page_size: usize) -> Seq<(int, Seq<u8>)>
    decreases n, n.children@.len() + 1,
{
    children_writes(n, n.children@.len() as int, page_size) + seq![page_write(n, page_size)]
}

/// The writes that store the subtrees of the first `i` children.
pub open spec fn children_writes(n: Node, i: int, page_size: usize) -> Seq<(int, Seq<u8>)>
    decreases n, i,
{
    if i <= 0 || i > n.children@.len() {
        Seq::empty()
    } else {
        children_writes(n, i - 1, page_size) + node_writes(*n.children@[i - 1], page_size)
    }
}

/// The writes of a snapshot: the metadata page, then the tree's pages.
pub open spec fn snapshot_writes(root: Node, page_size: usize, m: BtreeMetadata) -> Seq<(int, Seq<u8>)> {
    seq![(0int, meta_bytes(m) + zeros((page_size - METADATA_LEN) as nat))] + node_writes(root, page_size)
}

/// Copies of the items.
fn copy_items(items: &Vec<Item>) -> (r: Vec<Item>)
    ensures
        same_items(r@, items@),
{
    let mut r: Vec<Item> = Vec::new();
    let mut i: usize = 0;
    while i < items.len()
        invariant
            0 <= i <= items@.len(),
            r@.len() == i,
            forall|j: int| 0 <= j < i ==> (#[trigger] r@[j]).key == items@[j].key && r@[j].val@ == items@[j].val@,
        decreases items@.len() - i,
    {
        r.push(items[i].duplicate());
        i = i + 1;
    }
    r
}

/// Writes applied in two runs are applied as one.
pub proof fn lemma_apply_concat(img: Seq<u8>, a: Seq<(int, Seq<u8>)>, b: Seq<(int, Seq<u8>)>)
    ensures
        apply_writes(apply_writes(img, a), b) == apply_writes(img, a + b),
    decreases b.len(),
{
    if b.len() > 0 {
        lemma_apply_concat(img, a, b.drop_last());
        assert((a + b).drop_last() =~= a + b.drop_last());
        assert((a + b).last() == b.last());
    } else {
        assert(a + b =~= a);
    }
}

proof fn lemma_within_concat(a: Seq<(int, Seq<u8>)>, b: Seq<(int, Seq<u8>)>, len: int)
    requires
        writes_within(a, len),
        writes_within(b, len),
    ensures
        writes_within(a + b, len),
{
    assert forall|i: int| 0 <= i < (a + b).len() implies 0 <= (#[trigger] (a + b)[i]).0 && (a + b)[i].0 + (a + b)[i].1.len() <= len by {
        if i < a.len() {
            assert((a + b)[i] == a[i]);
        } else {
            assert((a + b)[i] == b[i - a.len()]);
        }
    }
}

impl Node {
    /// The page that stores this node: a leaf page, or an internal page
    /// listing the children's page ids.
    pub fn to_page(&self) -> (r: Page)
        ensures
            r.page_id() == self.id,
            same_items(r.item_seq(), self.items@),
            r.child_seq() == child_ids(*self),
            page_bytes(r) == node_page_bytes(*self),
    {
        let items = copy_items(&self.items);
        let r = if self.children.len() == 0 {
            Page::Leaf { id: self.id, items }
        } else {
            let mut ids: Vec<u32> = Vec::new();
            let mut i: usize = 0;
            while i < self.children.len()
                invariant
                    0 <= i <= self.children@.len(),
                    ids@ == child_ids(*self).subrange(0, i as int),
                decreases self.children@.len() - i,
            {
                ids.push(self.children[i].id);
                i = i + 1;
                proof {
                    assert(ids@ =~= child_ids(*self).subrange(0, i as int));
                }
            }
            proof {
                assert(ids@ =~= child_ids(*self));
            }
            Page::Internal { id: self.id, items, children: ids }
        };
        proof {
            assert(raw_items(r.item_seq()) =~= raw_items(self.items@));
            if self.children@.len() == 0 {
                assert(child_ids(*self) =~= Seq::<u32>::empty());
            }
        }
        r
    }

    /// A node with the page's id and items and no children yet.
    pub fn from_page(page: &Page) -> (r: Node)
        requires
            page.item_seq().len() <= i32::MAX,
        ensures
            r.id == page.page_id(),
            same_items(r.items@, page.item_seq()),
            r.children@.len() == 0,
            r.num_items == r.items@.len(),
    {
        match page {
            Page::Leaf { id, items } => {
                let items = copy_items(items);
                let num_items = items.len() as i32;
                Node { id: *id, items, children: Vec::new(), num_items }
            },
            Page::Internal { id, items, .. } => {
                let items = copy_items(items);
                let num_items = items.len() as i32;
                Node { id: *id, items, children: Vec::new(), num_items }
            },
        }
    }

    /// The height of the subtree when it is a B-tree whose keys lie
    /// strictly between `lo` and `hi` (and the height fits a `usize`);
    /// `None` when it is not.
    pub fn validate(&self, lo: i64, hi: i64) -> (r: Option<usize>)
        ensures
            r is Some ==> self.wf_at(lo as int, hi as int, r->0 as nat),
            forall|h: nat| #[trigger] self.wf_at(lo as int, hi as int, h) && h < usize::MAX ==> r == Some(h as usize),
        decreases self,
    {
        let ghost wfh: nat = if exists|h: nat| #[trigger] self.wf_at(lo as int, hi as int, h) && h < usize::MAX {
            choose|h: nat| #[trigger] self.wf_at(lo as int, hi as int, h) && h < usize::MAX
        } else {
            0
        };
        let ghost good = exists|h: nat| #[trigger] self.wf_at(lo as int, hi as int, h) && h < usize::MAX;
        proof {
            assert(good ==> self.wf_at(lo as int, hi as int, wfh) && wfh < usize::MAX);
            assert forall|h: nat| #[trigger] self.wf_at(lo as int, hi as int, h) && h < usize::MAX implies good && h == wfh by {
                lemma_height_unique(*self, lo as int, hi as int, h, lo as int, hi as int, wfh);
            }
        }
        if self.num_items < 0 || self.num_items as usize != self.items.len() || self.items.len() > MAX_ITEMS as usize {
            return None;
        }
        let mut i: usize = 0;
        while i < self.items.len()
            invariant
                0 <= i <= self.items@.len(),
                sorted_between(self.items@.subrange(0, i as int), lo as int, hi as int),
                good ==> self.wf_at(lo as int, hi as int, wfh) && wfh < usize::MAX,
            decreases self.items@.len() - i,
        {
            let k = self.items[i].key as i64;
            if k <= lo || k >= hi || (i > 0 && self.items[i - 1].key >= self.items[i].key) {
                return None;
            }
            i = i + 1;
            proof {
                let s = self.items@.subrange(0, i as int);
                assert forall|x: int, y: int| 0 <= x < y < s.len() implies s[x].key < s[y].key by {
                    if y == i - 1 && x < y - 1 {
                        assert(self.items@.subrange(0, i - 1)[x].key < self.items@.subrange(0, i - 1)[y - 1].key);
                    }
                }
                assert(sorted_between(s, lo as int, hi as int));
            }
        }
        proof {
            assert(self.items@.subrange(0, self.items@.len() as int) =~= self.items@);
        }
        if self.children.len() == 0 {
            return Some(0);
        }
        if self.children.len() != self.items.len() + 1 {
            return None;
        }
        let mut height: usize = 0;
        let mut j: usize = 0;
        while j < self.children.len()
            invariant
                0 <= j <= self.children@.len(),
                self.children@.len() == self.items@.len() + 1,
                sorted_between(self.items@, lo as int, hi as int),
                forall|x: int|
                    #![trigger self.children@[x]]
                    0 <= x < j ==> {
                        &&& self.children@[x].items.len() >= MIN_ITEMS
                        &&& self.children@[x].wf_at(
                            self.child_lo(x, lo as int),
                            self.child_hi(x, hi as int),
                            height as nat,
                        )
                    },
                good ==> self.wf_at(lo as int, hi as int, wfh) && wfh > 0 && wfh < usize::MAX,
                good && j > 0 ==> height == wfh - 1,
                forall|h: nat| #[trigger] self.wf_at(lo as int, hi as int, h) && h < usize::MAX ==> good && h == wfh,
            decreases self.children@.len() - j,
        {
            let clo: i64 = if j == 0 {
                lo
            } else {
                self.items[j - 1].key as i64
            };
            let chi: i64 = if j == self.items.len() {
                hi
            } else {
                self.items[j].key as i64
            };
            let child = &self.children[j];
            proof {
                if good {
                    assert(self.children@[j as int].wf_at(self.child_lo(j as int, lo as int), self.child_hi(j as int, hi as int), (wfh - 1) as nat));
                    assert(child.wf_at(clo as int, chi as int, (wfh - 1) as nat));
                    assert((wfh - 1) < usize::MAX);
                }
            }
            if child.items.len() < MIN_ITEMS as usize {
                return None;
            }
            let ch = match child.validate(clo, chi) {
                Some(ch) => ch,
                None => {
                    return None;
                },
            };
            if j == 0 {
                height = ch;
            } else if ch != height {
                return None;
            }
            j = j + 1;
        }
        if height == usize::MAX {
            return None;
        }
        proof {
            assert(self.wf_at(lo as int, hi as int, (height + 1) as nat));
        }
        Some(height + 1)
    }
}

/// A subtree has one height.
pub proof fn lemma_height_unique(n: Node, lo1: int, hi1: int, h1: nat, lo2: int, hi2: int, h2: nat)
    requires
        n.wf_at(lo1, hi1, h1),
        n.wf_at(lo2, hi2, h2),
    ensures
        h1 == h2,
    decreases h1,
{
    if h1 > 0 && h2 > 0 {
        let c = *n.children@[0];
        assert(c.wf_at(n.child_lo(0, lo1), n.child_hi(0, hi1), (h1 - 1) as nat));
        assert(c.wf_at(n.child_lo(0, lo2), n.child_hi(0, hi2), (h2 - 1) as nat));
        lemma_height_unique(c, n.child_lo(0, lo1), n.child_hi(0, hi1), (h1 - 1) as nat, n.child_lo(0, lo2), n.child_hi(0, hi2), (h2 - 1) as nat);
    }
}

/// The ids in `seen` after marking those of the first `i` children, on top
/// of the node's own.
pub open spec fn marked(old: Seq<bool>, n: Node, i: int, x: u32) -> bool {
    old[x as int] || x == n.id || exists|j: int| 0 <= j < i && #[trigger] has_id(*n.children@[j], x)
}

impl Node {
    /// Marks in `seen` the page id of every node of the subtree, and
    /// reports whether none was marked already and none comes twice.
    pub fn mark_ids(&self, seen: &mut Vec<bool>, Ghost(np): Ghost<u32>) -> (r: bool)
        requires
            ids_in(*self, np),
            old(seen)@.len() == np + 1,
        ensures
            final(seen)@.len() == old(seen)@.len(),
            r ==> ids_unique(*self),
            r ==> forall|x: u32| #[trigger] has_id(*self, x) ==> !old(seen)@[x as int],
            r ==> forall|x: u32| x <= np ==> #[trigger] final(seen)@[x as int] == (old(seen)@[x as int] || has_id(*self, x)),
            ids_unique(*self) && (forall|x: u32| #[trigger] has_id(*self, x) ==> !old(seen)@[x as int]) ==> r,
        decreases self,
    {
        let ghost s0 = seen@;
        let id = self.id as usize;
        if seen[id] {
            proof {
                assert(has_id(*self, self.id));
            }
            return false;
        }
        seen.set(id, true);
        let mut i: usize = 0;
        while i < self.children.len()
            invariant
                0 <= i <= self.children@.len(),
                ids_in(*self, np),
                seen@.len() == np + 1,
                s0.len() == np + 1,
                s0 == old(seen)@,
                !s0[self.id as int],
                forall|x: u32| x <= np ==> #[trigger] seen@[x as int] == marked(s0, *self, i as int, x),
                forall|j: int| #![trigger self.children@[j]] 0 <= j < i ==> ids_unique(*self.children@[j]) && !has_id(*self.children@[j], self.id),
                forall|j: int, x: u32| 0 <= j < i && #[trigger] has_id(*self.children@[j], x) ==> !s0[x as int],
                forall|j: int, k: int, x: u32| 0 <= j < i && 0 <= k < i && j != k && #[trigger] has_id(*self.children@[j], x) ==> !#[trigger] has_id(*self.children@[k], x),
            decreases self.children@.len() - i,
        {
            let ghost s1 = seen@;
            let child = &self.children[i];
            proof {
                assert(ids_in(**child, np));
            }
            let ok = child.mark_ids(seen, Ghost(np));
            if !ok {
                proof {
                    if ids_unique(*self) && (forall|x: u32| #[trigger] has_id(*self, x) ==> !s0[x as int]) {
                        assert forall|x: u32| #[trigger] has_id(**child, x) implies !s1[x as int] by {
                            assert(has_id(*self.children@[i as int], x));
                            assert(has_id(*self, x));
                            lemma_has_id_in(**child, np, x);
                            if x == self.id {
                            } else if exists|j: int| 0 <= j < i && #[trigger] has_id(*self.children@[j], x) {
                                let j = choose|j: int| 0 <= j < i && #[trigger] has_id(*self.children@[j], x);
                                assert(has_id(*self.children@[i as int], x));
                            }
                        }
                        assert(ids_unique(**child));
                    }
                }
                return false;
            }
            proof {
                assert forall|x: u32| x <= np implies #[trigger] seen@[x as int] == marked(s0, *self, i + 1, x) by {
                    if has_id(**child, x) {
                        assert(has_id(*self.children@[i as int], x));
                    }
                    if exists|j: int| 0 <= j < i + 1 && #[trigger] has_id(*self.children@[j], x) {
                        let j = choose|j: int| 0 <= j < i + 1 && #[trigger] has_id(*self.children@[j], x);
                        if j == i {
                            assert(has_id(**child, x));
                        }
                    }
                }
                assert forall|x: u32| #[trigger] has_id(**child, x) implies !s0[x as int] && x != self.id && !(exists|j: int| 0 <= j < i && #[trigger] has_id(*self.children@[j], x)) by {
                    lemma_has_id_in(**child, np, x);
                    assert(!s1[x as int]);
                    assert(!marked(s0, *self, i as int, x));
                }
                assert forall|j: int, k: int, x: u32| 0 <= j < i + 1 && 0 <= k < i + 1 && j != k && #[trigger] has_id(*self.children@[j], x) implies !#[trigger] has_id(*self.children@[k], x) by {
                    if j == i {
                        assert(has_id(**child, x));
                    } else if k == i && has_id(*self.children@[k], x) {
                        assert(has_id(**child, x));
                    }
                }
            }
            i = i + 1;
        }
        proof {
            assert forall|x: u32| #[trigger] has_id(*self, x) implies !s0[x as int] by {
                if x != self.id {
                    let j = choose|j: int| #![trigger self.children@[j]] 0 <= j < self.children@.len() && has_id(*self.children@[j], x);
                }
            }
            assert forall|x: u32| x <= np implies #[trigger] seen@[x as int] == (s0[x as int] || has_id(*self, x)) by {
                if marked(s0, *self, self.children@.len() as int, x) && !s0[x as int] && x != self.id {
                    let j = choose|j: int| 0 <= j < self.children@.len() && #[trigger] has_id(*self.children@[j], x);
                    assert(has_id(*self.children@[j], x));
                }
                if has_id(*self, x) && x != self.id {
                    let j = choose|j: int| #![trigger self.children@[j]] 0 <= j < self.children@.len() && has_id(*self.children@[j], x);
                    assert(has_id(*self.children@[j], x));
                }
            }
        }
        true
    }
}

impl Btree {
    /// Writes the metadata record and every node's page into the pager's
    /// image. Fails with `InvalidInput` on an empty tree, a page size below
    /// the record's length, or a node whose page does not fit.
    pub fn snapshot(&mut self) -> (r: Result<(), BtreeError>)
        requires
            old(self).wf(),
        ensures
            final(self).wf(),
            final(self).root == old(self).root,
            final(self).height == old(self).height,
            final(self).pager.page_size == old(self).pager.page_size,
            final(self).pager.num_pages == old(self).pager.num_pages,
            r is Ok <==> {
                &&& old(self).root is Some
                &&& valid_page_size(old(self).pager.page_size)
                &&& old(self).pager.page_size >= METADATA_LEN
                &&& fits(*old(self).root->0, old(self).pager.page_size, old(self).pager.num_pages)
            },
            r is Err ==> r->Err_0 == BtreeError::InvalidInput,
            old(self).root is None ==> *final(self) == *old(self),
            r is Ok ==> exists|m: BtreeMetadata|
                {
                    &&& m.magic@ == magic_bytes()
                    &&& m.version == FORMAT_VERSION
                    &&& m.root_page_id == old(self).root->0.id
                    &&& m.page_size == old(self).pager.page_size
                    &&& m.num_pages == old(self).pager.num_pages
                    &&& writes_within(
                        snapshot_writes(*old(self).root->0, old(self).pager.page_size, m),
                        old(self).pager.image().len() as int,
                    )
                    &&& final(self).pager.image() == apply_writes(
                        old(self).pager.image(),
                        snapshot_writes(*old(self).root->0, old(self).pager.page_size, m),
                    )
                },
    {
        let ghost img0 = self.pager.image();
        let root = match &self.root {
            Some(r) => r,
            None => {
                return Err(BtreeError::InvalidInput);
            },
        };
        if self.pager.page_size > MAX_PAGE_SIZE {
            return Err(BtreeError::InvalidInput);
        }
        let metadata = BtreeMetadata::new(root.id, self.pager.page_size as u32, self.pager.num_pages);
        match self.pager.write_metadata(&metadata) {
            Ok(()) => {},
            Err(e) => {
                return Err(e);
            },
        }
        let ghost img1 = self.pager.image();
        let r = Self::snapshot_node(&mut self.pager, root, Ghost(key_floor()), Ghost(key_ceil()), Ghost(self.height@));
        proof {
            if r is Ok {
                let ps = self.pager.page_size;
                let meta_w = (0int, meta_bytes(metadata) + zeros((ps - METADATA_LEN) as nat));
                let nw = node_writes(**root, ps);
                let w = snapshot_writes(**root, ps, metadata);
                vstd::bytes::lemma_auto_spec_u32_to_from_le_bytes();
                vstd::bytes::lemma_auto_spec_u64_to_from_le_bytes();
                assert(meta_bytes(metadata).len() == METADATA_LEN);
                assert((self.pager.num_pages as int + 1) * ps >= ps) by (nonlinear_arith)
                    requires ps >= 0;
                lemma_apply_concat(img0, seq![meta_w], nw);
                assert(seq![meta_w].drop_last() =~= Seq::<(int, Seq<u8>)>::empty());
                assert(seq![meta_w].last() == meta_w);
                assert(apply_writes(img0, Seq::<(int, Seq<u8>)>::empty()) == img0);
                assert(img1 == apply_writes(img0, seq![meta_w]));
                assert(writes_within(w, img0.len() as int)) by {
                    assert forall|i: int| 0 <= i < w.len() implies 0 <= (#[trigger] w[i]).0 && w[i].0 + w[i].1.len() <= img0.len() by {
                        if i > 0 {
                            assert(w[i] == nw[i - 1]);
                        }
                    }
                }
            }
        }
        r
    }

    /// Writes the pages of the subtree, children before parents.
    fn snapshot_node(pager: &mut Pager, node: &Node, Ghost(lo): Ghost<int>, Ghost(hi): Ghost<int>, Ghost(h): Ghost<nat>) -> (r: Result<(), BtreeError>)
        requires
            old(pager).wf(),
            valid_page_size(old(pager).page_size),
            node.wf_at(lo, hi, h),
        ensures
            final(pager).wf(),
            final(pager).page_size == old(pager).page_size,
            final(pager).num_pages == old(pager).num_pages,
            r is Ok <==> fits(*node, old(pager).page_size, old(pager).num_pages),
            r is Err ==> r->Err_0 == BtreeError::InvalidInput,
            r is Ok ==> writes_within(node_writes(*node, old(pager).page_size), old(pager).image().len() as int),
            r is Ok ==> final(pager).image() == apply_writes(old(pager).image(), node_writes(*node, old(pager).page_size)),
        decreases h,
    {
        let ghost img0 = pager.image();
        let ghost ps = pager.page_size;
        let mut i: usize = 0;
        while i < node.children.len()
            invariant
                0 <= i <= node.children@.len(),
                node.wf_at(lo, hi, h),
                pager.wf(),
                valid_page_size(pager.page_size),
                pager.page_size == old(pager).page_size,
                pager.num_pages == old(pager).num_pages,
                forall|x: int| #![trigger node.children@[x]] 0 <= x < i ==> fits(*node.children@[x], pager.page_size, pager.num_pages),
                ps == pager.page_size,
                img0 == old(pager).image(),
                pager.image().len() == img0.len(),
                writes_within(children_writes(*node, i as int, ps), img0.len() as int),
                pager.image() == apply_writes(img0, children_writes(*node, i as int, ps)),
            decreases node.children@.len() - i,
        {
            let ghost img_i = pager.image();
            proof {
                assert(node.children@[i as int].wf_at(node.child_lo(i as int, lo), node.child_hi(i as int, hi), (h - 1) as nat));
            }
            match Self::snapshot_node(
                pager,
                &node.children[i],
                Ghost(node.child_lo(i as int, lo)),
                Ghost(node.child_hi(i as int, hi)),
                Ghost((h - 1) as nat),
            ) {
                Ok(()) => {},
                Err(e) => {
                    return Err(e);
                },
            }
            proof {
                let cw = children_writes(*node, i as int, ps);
                let cn = node_writes(*node.children@[i as int], ps);
                lemma_apply_concat(img0, cw, cn);
                assert(children_writes(*node, i + 1, ps) == cw + cn);
                lemma_within_concat(cw, cn, img0.len() as int);
            }
            i = i + 1;
        }
        let page = node.to_page();
        let ghost img_c = pager.image();
        let r = pager.write_page(&page);
        proof {
            if r is Ok {
                let cw = children_writes(*node, node.children@.len() as int, ps);
                let pw = page_write(*node, ps);
                assert(node_writes(*node, ps) == cw + seq![pw]);
                lemma_apply_concat(img0, cw, seq![pw]);
                assert(seq![pw].drop_last() =~= Seq::<(int, Seq<u8>)>::empty());
                assert(seq![pw].last() == pw);
                assert(apply_writes(img_c, Seq::<(int, Seq<u8>)>::empty()) == img_c);
                assert(apply_writes(img_c, seq![pw]) == overwrite(img_c, pw.0, pw.1));
                assert((node.id as int + 1) * ps <= (pager.num_pages as int + 1) * ps) by (nonlinear_arith)
                    requires node.id <= pager.num_pages, ps >= 0;
                assert((node.id as int + 1) * ps == node.id as int * ps + ps) by (nonlinear_arith);
                assert(writes_within(seq![pw], img0.len() as int));
                lemma_within_concat(cw, seq![pw], img0.len() as int);
            }
        }
        r
    }

    /// Rebuilds a tree from the bytes of a snapshot file. Fails with
    /// `InvalidInput` on empty bytes or a page size other than the
    /// recorded one, and with `InvalidData` when the bytes do not hold a
    /// valid metadata record of this format and a valid B-tree.
    pub fn load_snapshot(bytes: &[u8], page_size: usize) -> (r: Result<Btree, BtreeError>)
        ensures
            r == Err::<Btree, BtreeError>(BtreeError::InvalidInput) <==> (bytes@.len() == 0 || (bytes@.len()
                >= METADATA_LEN && bytes@.subrange(0, 4) == magic_bytes() && recorded_page_size(bytes@)
                != page_size)),
            r is Ok ==> header_ok(bytes@) && recorded_page_size(bytes@) == page_size,
            r is Ok ==> {
                let t = r->Ok_0;
                &&& t.pager.num_pages == recorded_num_pages(bytes@)
                &&& t.root->0.id == (if recorded_root(bytes@) == 0 {
                    1
                } else {
                    recorded_root(bytes@)
                })
                &&& read_from(t.pager.image(), *t.root->0, page_size, t.pager.num_pages)
            },
            forall|root: Node, h: nat|
                #[trigger] holds_tree(bytes@, root, page_size, h) ==> r is Ok && same_tree(*r->Ok_0.root->0, root),
            match r {
                Ok(t) => {
                    &&& t.wf()
                    &&& t.root is Some
                    &&& t.pager.page_size == page_size
                    &&& t.pager.image() == bytes@.subrange(0, t.pager.image().len() as int)
                },
                Err(e) => e == BtreeError::InvalidInput || e == BtreeError::InvalidData,
            },
    {
        if bytes.len() == 0 {
            return Err(BtreeError::InvalidInput);
        }
        let metadata = match BtreeMetadata::deserialize(bytes) {
            Ok(m) => m,
            Err(e) => {
                return Err(e);
            },
        };
        proof {
            vstd::bytes::lemma_auto_spec_u32_to_from_le_bytes();
            vstd::bytes::lemma_auto_spec_u64_to_from_le_bytes();
            let mb = meta_bytes(metadata);
            let head = bytes@.subrange(0, METADATA_LEN as int);
            assert(mb.subrange(4, 8) =~= le32(metadata.version));
            assert(mb.subrange(8, 12) =~= le32(metadata.root_page_id));
            assert(mb.subrange(12, 16) =~= le32(metadata.page_size));
            assert(mb.subrange(16, 20) =~= le32(metadata.num_pages));
            assert(head.subrange(4, 8) =~= bytes@.subrange(4, 8));
            assert(head.subrange(8, 12) =~= bytes@.subrange(8, 12));
            assert(head.subrange(12, 16) =~= bytes@.subrange(12, 16));
            assert(head.subrange(16, 20) =~= bytes@.subrange(16, 20));
            assert(spec_u32_from_le_bytes(le32(metadata.version)) == metadata.version);
            assert(spec_u32_from_le_bytes(le32(metadata.root_page_id)) == metadata.root_page_id);
            assert(spec_u32_from_le_bytes(le32(metadata.page_size)) == metadata.page_size);
            assert(spec_u32_from_le_bytes(le32(metadata.num_pages)) == metadata.num_pages);
        }
        if metadata.page_size as usize != page_size {
            return Err(BtreeError::InvalidInput);
        }
        if metadata.version != FORMAT_VERSION {
            return Err(BtreeError::InvalidData);
        }
        let pager = match Pager::from_image(bytes, page_size, metadata.num_pages) {
            Ok(p) => p,
            Err(e) => {
                return Err(e);
            },
        };
        let ghost np = metadata.num_pages;
        let ghost len = pager.image().len() as int;
        proof {
            assert forall|root: Node, h: nat| #[trigger] holds_tree(bytes@, root, page_size, h) implies {
                &&& loadable(pager.image(), root, page_size, np, np as int)
                &&& root.id == (if metadata.root_page_id == 0 {
                    1
                } else {
                    metadata.root_page_id
                })
                &&& laid_out(pager.page_region(root.id as int), node_tag(root), raw_items(root.items@), child_ids(root))
            } by {
                lemma_loadable_prefix(bytes@, root, page_size, np, np as int, len);
                assert(pager.image() == bytes@.subrange(0, len));
            }
        }
        let root_id = if metadata.root_page_id == 0 {
            1
        } else {
            metadata.root_page_id
        };
        let root_page = match pager.read_page(root_id) {
            Ok(p) => p,
            Err(e) => {
                return Err(e);
            },
        };
        let ghost rp = root_page;
        let root = match Self::load_node(&pager, root_page, metadata.num_pages) {
            Ok(n) => n,
            Err(e) => {
                proof {
                    assert forall|root: Node, h: nat| #[trigger] holds_tree(bytes@, root, page_size, h) implies false by {
                        assert(read_as(rp, node_tag(root), raw_items(root.items@), child_ids(root)));
                        assert(loadable(pager.image(), root, pager.page_size, pager.num_pages, np as int));
                    }
                }
                return Err(e);
            },
        };
        proof {
            assert forall|t: Node, h: nat| #[trigger] holds_tree(bytes@, t, page_size, h) implies same_tree(root, t) && root.wf_at(
                key_floor(),
                key_ceil(),
                h,
            ) && h < usize::MAX by {
                assert(read_as(rp, node_tag(t), raw_items(t.items@), child_ids(t)));
                assert(loadable(pager.image(), t, pager.page_size, pager.num_pages, np as int));
                lemma_same_tree_wf(root, t, key_floor(), key_ceil(), h);
                lemma_loadable_height(bytes@, t, page_size, np, np as int, key_floor(), key_ceil(), h);
            }
        }
        let height = match root.validate(i32::MIN as i64 - 1, i32::MAX as i64 + 1) {
            Some(h) => h,
            None => {
                return Err(BtreeError::InvalidData);
            },
        };
        proof {
            assert forall|t: Node, h: nat| #[trigger] holds_tree(bytes@, t, page_size, h) implies h == height by {
                lemma_height_unique(root, key_floor(), key_ceil(), h, key_floor(), key_ceil(), height as nat);
            }
        }
        if (height > 0 && root.items.len() == 0) || height >= metadata.num_pages as usize {
            proof {
                assert forall|t: Node, h: nat| #[trigger] holds_tree(bytes@, t, page_size, h) implies false by {
                    lemma_loadable_height(bytes@, t, page_size, np, np as int, key_floor(), key_ceil(), h);
                }
            }
            return Err(BtreeError::InvalidData);
        }
        proof {
            lemma_read_from_ids(pager.image(), root, page_size, pager.num_pages);
            let ps = page_size as int;
            assert((np as int + 1) <= (np as int + 1) * ps) by (nonlinear_arith)
                requires
                    ps >= 1,
            ;
        }
        let data_len = pager.data.len();
        assert(np as int + 1 <= data_len);
        let n_seen = metadata.num_pages as usize + 1;
        let mut seen: Vec<bool> = Vec::new();
        let mut k: usize = 0;
        while k < n_seen
            invariant
                k <= n_seen,
                seen@.len() == k,
                forall|x: int| 0 <= x < k ==> seen@[x] == false,
            decreases n_seen - k,
        {
            seen.push(false);
            k = k + 1;
        }
        let ghost s0 = seen@;
        if !root.mark_ids(&mut seen, Ghost(metadata.num_pages)) {
            proof {
                assert forall|t: Node, h: nat| #[trigger] holds_tree(bytes@, t, page_size, h) implies false by {
                    assert(read_as(rp, node_tag(t), raw_items(t.items@), child_ids(t)));
                    assert(loadable(pager.image(), t, pager.page_size, pager.num_pages, np as int));
                    lemma_same_tree_unique(root, t);
                    assert(forall|x: u32| #[trigger] has_id(root, x) ==> !s0[x as int]) by {
                        assert forall|x: u32| #[trigger] has_id(root, x) implies !s0[x as int] by {
                            lemma_has_id_in(root, np, x);
                        }
                    }
                }
            }
            return Err(BtreeError::InvalidData);
        }
        Ok(Btree { pager, root: Some(Box::new(root)), height: Ghost(height as nat) })
    }

    /// Reads the subtree under a page: each child page id must be that of
    /// an allocated page, and no path may be longer than `depth` pages. A
    /// subtree stored page by page, read from its root's page, is read
    /// back as itself.
    fn load_node(pager: &Pager, page: Page, depth: u32) -> (r: Result<Node, BtreeError>)
        requires
            pager.wf(),
            valid_page_size(pager.page_size),
            1 <= page.page_id() <= pager.num_pages,
            exists|raw: Seq<(i32, Seq<u8>)>| decodes_to(pager.page_region(page.page_id() as int), page, raw),
        ensures
            r is Err ==> r->Err_0 == BtreeError::InvalidData,
            r is Ok ==> r->Ok_0.id == page.page_id() && read_from(
                pager.image(),
                r->Ok_0,
                pager.page_size,
                pager.num_pages,
            ),
            forall|n: Node|
                #[trigger] loadable(pager.image(), n, pager.page_size, pager.num_pages, depth as int) && read_as(
                    page,
                    node_tag(n),
                    raw_items(n.items@),
                    child_ids(n),
                ) && page.page_id() == n.id ==> r is Ok && same_tree(r->Ok_0, n),
        decreases depth,
    {
        let ghost img = pager.image();
        let ghost ps = pager.page_size;
        let ghost np = pager.num_pages;
        let ghost pg = page;
        if depth == 0 || page.items().len() > i32::MAX as usize {
            proof {
                assert forall|n: Node| #[trigger] loadable(img, n, ps, np, depth as int) && read_as(pg, node_tag(n), raw_items(n.items@), child_ids(n))
                    && pg.page_id() == n.id implies false by {
                    lemma_read_items(pg, n);
                }
            }
            return Err(BtreeError::InvalidData);
        }
        let mut node = Node::from_page(&page);
        match page {
            Page::Internal { children, .. } => {
                let mut loaded: Vec<Box<Node>> = Vec::new();
                let mut i: usize = 0;
                while i < children.len()
                    invariant
                        0 <= i <= children@.len(),
                        pager.wf(),
                        valid_page_size(pager.page_size),
                        depth > 0,
                        img == pager.image(),
                        ps == pager.page_size,
                        np == pager.num_pages,
                        children@ == pg.child_seq(),
                        pg.tag() == 1,
                        pg == page,
                        forall|n: Node| #[trigger] loadable(img, n, ps, np, depth as int) && read_as(pg, node_tag(n), raw_items(n.items@), child_ids(n))
                            && pg.page_id() == n.id ==> loaded@.len() == i && n.children@.len() == children@.len()
                            && forall|x: int| #![trigger loaded@[x]] 0 <= x < i ==> same_tree(*loaded@[x], *n.children@[x]),
                        loaded@.len() == i,
                        forall|x: int| #![trigger loaded@[x]] 0 <= x < i ==> loaded@[x].id == children@[x] && read_from(img, *loaded@[x], ps, np),
                    decreases children@.len() - i,
                {
                    let child_id = children[i];
                    proof {
                        assert forall|n: Node| #[trigger] loadable(img, n, ps, np, depth as int) && read_as(pg, node_tag(n), raw_items(n.items@), child_ids(n))
                            && pg.page_id() == n.id implies ({
                                let c = *n.children@[i as int];
                                &&& c.id == child_id
                                &&& loadable(img, c, ps, np, depth - 1)
                                &&& 1 <= child_id <= np
                            }) by {
                            assert(child_id == pg.child_seq()[i as int]);
                            assert(pg.child_seq() == child_ids(n));
                            assert(i < n.children@.len());
                            assert(child_ids(n)[i as int] == n.children@[i as int].id);
                            assert(loadable(img, *n.children@[i as int], ps, np, depth - 1));
                        }
                    }
                    if child_id == 0 || child_id > pager.num_pages {
                        proof {
                            assert forall|n: Node| #[trigger] loadable(pager.image(), n, pager.page_size, pager.num_pages, depth as int) && read_as(pg, node_tag(n), raw_items(n.items@), child_ids(n))
                                && pg.page_id() == n.id implies false by {
                                assert(loadable(img, n, ps, np, depth as int));
                            }
                        }
                        return Err(BtreeError::InvalidData);
                    }
                    let child_page = match pager.read_page(child_id) {
                        Ok(p) => p,
                        Err(e) => {
                            proof {
                                assert forall|n: Node| #[trigger] loadable(img, n, ps, np, depth as int) && read_as(pg, node_tag(n), raw_items(n.items@), child_ids(n))
                                    && pg.page_id() == n.id implies false by {
                                    let c = *n.children@[i as int];
                                    assert(laid_out(pager.page_region(child_id as int), node_tag(c), raw_items(c.items@), child_ids(c)));
                                }
                            }
                            return Err(e);
                        },
                    };
                    let ghost cp = child_page;
                    let child = match Self::load_node(pager, child_page, depth - 1) {
                        Ok(n) => n,
                        Err(e) => {
                            proof {
                                assert forall|n: Node| #[trigger] loadable(pager.image(), n, pager.page_size, pager.num_pages, depth as int) && read_as(pg, node_tag(n), raw_items(n.items@), child_ids(n))
                                    && pg.page_id() == n.id implies false by {
                                    assert(loadable(img, n, ps, np, depth as int));
                                    let c = *n.children@[i as int];
                                    assert(laid_out(pager.page_region(child_id as int), node_tag(c), raw_items(c.items@), child_ids(c)));
                                    assert(read_as(cp, node_tag(c), raw_items(c.items@), child_ids(c)));
                                    assert(cp.page_id() == c.id);
                                    assert(loadable(pager.image(), c, pager.page_size, pager.num_pages, (depth - 1) as int));
                                }
                            }
                            return Err(e);
                        },
                    };
                    proof {
                        assert forall|n: Node| #[trigger] loadable(img, n, ps, np, depth as int) && read_as(pg, node_tag(n), raw_items(n.items@), child_ids(n))
                            && pg.page_id() == n.id implies same_tree(child, *n.children@[i as int]) by {
                            let c = *n.children@[i as int];
                            assert(laid_out(pager.page_region(child_id as int), node_tag(c), raw_items(c.items@), child_ids(c)));
                            assert(read_as(cp, node_tag(c), raw_items(c.items@), child_ids(c)));
                            assert(cp.page_id() == c.id);
                            assert(loadable(pager.image(), c, pager.page_size, pager.num_pages, (depth - 1) as int));
                        }
                    }
                    let ghost before = loaded@;
                    loaded.push(Box::new(child));
                    proof {
                        assert forall|x: int| #![trigger loaded@[x]] 0 <= x < i + 1 implies loaded@[x].id == children@[x] && read_from(img, *loaded@[x], ps, np) by {
                            if x < i {
                                assert(loaded@[x] == before[x]);
                            }
                        }
                    }
                    proof {
                        assert forall|n: Node| #[trigger] loadable(img, n, ps, np, depth as int) && read_as(pg, node_tag(n), raw_items(n.items@), child_ids(n))
                            && pg.page_id() == n.id implies forall|x: int| #![trigger loaded@[x]] 0 <= x < i + 1 ==> same_tree(*loaded@[x], *n.children@[x]) by {
                            assert forall|x: int| #![trigger loaded@[x]] 0 <= x < i + 1 implies same_tree(*loaded@[x], *n.children@[x]) by {
                                if x < i {
                                    assert(loaded@[x] == before[x]);
                                }
                            }
                        }
                    }
                    i = i + 1;
                }
                node.children = loaded;
                proof {
                    assert(child_ids(node) =~= pg.child_seq());
                }
            },
            Page::Leaf { .. } => {},
        }
        proof {
            let raw = choose|raw: Seq<(i32, Seq<u8>)>| decodes_to(pager.page_region(pg.page_id() as int), pg, raw);
            assert(node.id == pg.page_id());
            if pg.tag() == 0 {
                assert(child_ids(node) =~= pg.child_seq());
            }
            assert(node_tag(node) == pg.tag());
            assert(stored_as(img.subrange(node.id * ps, (node.id + 1) * ps), node, raw));
            assert(read_from(img, node, ps, np));
        }
        proof {
            assert forall|n: Node| #[trigger] loadable(img, n, ps, np, depth as int) && read_as(pg, node_tag(n), raw_items(n.items@), child_ids(n))
                && pg.page_id() == n.id implies same_tree(node, n) by {
                lemma_read_items(pg, n);
                assert(same_items(node.items@, n.items@));
                if pg.tag() == 0 {
                    assert(child_ids(n).len() == 0);
                }
            }
        }
        Ok(node)
    }

    /// Whether `bytes` open with a metadata record for the given page size:
    /// at least a page of bytes, the magic bytes, and that page size
    /// recorded. The tree itself is not examined.
    pub fn is_valid_snapshot(bytes: &[u8], page_size: usize) -> (r: bool)
        ensures
            r == {
                &&& bytes@.len() >= page_size
                &&& page_size >= METADATA_LEN
                &&& bytes@.subrange(0, 4) == magic_bytes()
                &&& spec_u32_from_le_bytes(bytes@.subrange(12, 16)) == page_size
            },
    {
        if bytes.len() < page_size {
            return false;
        }
        let region = slice_subrange(bytes, 0, page_size);
        match BtreeMetadata::deserialize(region) {
            Ok(m) => {
                proof {
                    vstd::bytes::lemma_auto_spec_u32_to_from_le_bytes();
                    vstd::bytes::lemma_auto_spec_u64_to_from_le_bytes();
                    assert(region@.subrange(0, 4) =~= bytes@.subrange(0, 4));
                    assert(meta_bytes(m).subrange(12, 16) =~= le32(m.page_size));
                    assert(region@.subrange(0, METADATA_LEN as int).subrange(12, 16) =~= bytes@.subrange(12, 16));
                }
                m.page_size as usize == page_size
            },
            Err(_) => {
                proof {
                    if page_size >= METADATA_LEN {
                        assert(region@.subrange(0, 4) =~= bytes@.subrange(0, 4));
                    }
                }
                false
            },
        }
    }
}

} // verus!
