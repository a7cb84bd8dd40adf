use crate::node::{
    has_id, ids_unique, lemma_pair_merged_unique, lemma_pair_replaced_unique, ids_in, count_less, lemma_split_lookup, keys_sorted, lemma_count_less_at, lemma_lookup_at, lemma_lookup_sorted,
    sorted_between, splits_at, Node,
};
use crate::{Item, MAX_ITEMS, MIN_ITEMS};
use vstd::prelude::*;

verus! {

/// The items before `at` and the children up to it form a B-tree bounded
/// above by the key at `at`, answering the lookups below that key.
pub proof fn lemma_prefix(c: Node, left: Node, at: int, lo: int, hi: int, h: nat)
    requires
        c.wf_at(lo, hi, h),
        0 <= at < c.items@.len(),
        left.items@ == c.items@.subrange(0, at),
        left.num_items == at,
        h == 0 ==> left.children@.len() == 0,
        h > 0 ==> left.children@ == c.children@.subrange(0, at + 1),
    ensures
        left.wf_at(lo, c.items@[at].key as int, h),
        forall|k: i32| k < c.items@[at].key ==> #[trigger] left.lookup(k) == c.lookup(k),
{
    let mk = c.items@[at].key;
    assert(sorted_between(left.items@, lo, mk as int));
    if h > 0 {
        assert forall|i: int| #![trigger left.children@[i]] 0 <= i < left.children@.len() implies {
            &&& left.children@[i].items.len() >= MIN_ITEMS
            &&& left.children@[i].wf_at(left.child_lo(i, lo), left.child_hi(i, mk as int), (h - 1) as nat)
        } by {
            assert(left.children@[i] == c.children@[i]);
        }
    }
    assert forall|k: i32| k < mk implies #[trigger] left.lookup(k) == c.lookup(k) by {
        lemma_lookup_sorted(c, k);
        let q = count_less(c.items@, k) as int;
        assert(q <= at);
        assert(splits_at(left.items@, k, q));
        lemma_lookup_at(left, k, q);
        lemma_lookup_at(c, k, q);
    }
}

/// The items after `at` and the children after it form a B-tree bounded
/// below by the key at `at`, answering the lookups above that key.
pub proof fn lemma_suffix(c: Node, right: Node, at: int, lo: int, hi: int, h: nat)
    requires
        c.wf_at(lo, hi, h),
        0 <= at < c.items@.len(),
        right.items@ == c.items@.subrange(at + 1, c.items@.len() as int),
        right.num_items == c.items@.len() - at - 1,
        h == 0 ==> right.children@.len() == 0,
        h > 0 ==> right.children@ == c.children@.subrange(at + 1, c.children@.len() as int),
    ensures
        right.wf_at(c.items@[at].key as int, hi, h),
        forall|k: i32| k > c.items@[at].key ==> #[trigger] right.lookup(k) == c.lookup(k),
{
    let mk = c.items@[at].key;
    assert(sorted_between(right.items@, mk as int, hi));
    if h > 0 {
        assert forall|i: int| #![trigger right.children@[i]] 0 <= i < right.children@.len() implies {
            &&& right.children@[i].items.len() >= MIN_ITEMS
            &&& right.children@[i].wf_at(right.child_lo(i, mk as int), right.child_hi(i, hi), (h - 1) as nat)
        } by {
            assert(right.children@[i] == c.children@[i + at + 1]);
        }
    }
    assert forall|k: i32| k > mk implies #[trigger] right.lookup(k) == c.lookup(k) by {
        lemma_lookup_sorted(c, k);
        let q = count_less(c.items@, k) as int;
        assert(q > at);
        assert(splits_at(right.items@, k, q - at - 1));
        lemma_lookup_at(right, k, q - at - 1);
        lemma_lookup_at(c, k, q);
    }
}

/// Putting an item and a subtree below it in front of a B-tree gives a
/// B-tree whose lookups below the item go to that subtree.
pub proof fn lemma_put_first(c: Node, c2: Node, a: Item, g: Node, lo: int, hi: int, h: nat)
    requires
        c.wf_at(a.key as int, hi, h),
        lo < a.key < hi,
        c.items@.len() < MAX_ITEMS,
        c2.items@ == seq![a] + c.items@,
        c2.num_items == c.num_items + 1,
        h == 0 ==> c2.children@.len() == 0,
        h > 0 ==> c2.children@ == seq![Box::new(g)] + c.children@,
        h > 0 ==> g.wf_at(lo, a.key as int, (h - 1) as nat) && g.items@.len() >= MIN_ITEMS,
    ensures
        c2.wf_at(lo, hi, h),
        forall|k: i32| k > a.key ==> #[trigger] c2.lookup(k) == c.lookup(k),
        forall|k: i32| k < a.key ==> #[trigger] c2.lookup(k) == (if h > 0 {
            g.lookup(k)
        } else {
            None
        }),
        c2.lookup(a.key) == Some(a.val@),
{
    let s = c.items@;
    let s2 = c2.items@;
    assert(sorted_between(s2, lo, hi)) by {
        assert forall|i: int, j: int| 0 <= i < j < s2.len() implies s2[i].key < s2[j].key by {
            assert(s2[j] == s[j - 1]);
            if i > 0 {
                assert(s2[i] == s[i - 1]);
            }
        }
        assert forall|i: int| 0 <= i < s2.len() implies lo < #[trigger] s2[i].key < hi by {
            if i > 0 {
                assert(s2[i] == s[i - 1]);
            }
        }
    }
    if h > 0 {
        assert forall|i: int| #![trigger c2.children@[i]] 0 <= i < c2.children@.len() implies {
            &&& c2.children@[i].items.len() >= MIN_ITEMS
            &&& c2.children@[i].wf_at(c2.child_lo(i, lo), c2.child_hi(i, hi), (h - 1) as nat)
        } by {
            if i > 0 {
                assert(c2.children@[i] == c.children@[i - 1]);
            } else {
                assert(c2.children@[0] == g);
            }
        }
    }
    assert forall|k: i32| k > a.key implies #[trigger] c2.lookup(k) == c.lookup(k) by {
        lemma_lookup_sorted(c, k);
        let q = count_less(s, k) as int;
        assert(splits_at(s2, k, q + 1));
        lemma_lookup_at(c2, k, q + 1);
        lemma_lookup_at(c, k, q);
        if h > 0 {
            assert(c2.children@[q + 1] == c.children@[q]);
        }
    }
    assert forall|k: i32| k < a.key implies #[trigger] c2.lookup(k) == (if h > 0 {
        g.lookup(k)
    } else {
        None
    }) by {
        assert(splits_at(s2, k, 0));
        lemma_lookup_at(c2, k, 0);
    }
    assert(splits_at(s2, a.key, 0));
    lemma_lookup_at(c2, a.key, 0);
}

/// Putting an item and a subtree above it behind a B-tree gives a B-tree
/// whose lookups above the item go to that subtree.
pub proof fn lemma_put_last(c: Node, c2: Node, a: Item, g: Node, lo: int, hi: int, h: nat)
    requires
        c.wf_at(lo, a.key as int, h),
        lo < a.key < hi,
        c.items@.len() < MAX_ITEMS,
        c2.items@ == c.items@.push(a),
        c2.num_items == c.num_items + 1,
        h == 0 ==> c2.children@.len() == 0,
        h > 0 ==> c2.children@ == c.children@.push(Box::new(g)),
        h > 0 ==> g.wf_at(a.key as int, hi, (h - 1) as nat) && g.items@.len() >= MIN_ITEMS,
    ensures
        c2.wf_at(lo, hi, h),
        forall|k: i32| k < a.key ==> #[trigger] c2.lookup(k) == c.lookup(k),
        forall|k: i32| k > a.key ==> #[trigger] c2.lookup(k) == (if h > 0 {
            g.lookup(k)
        } else {
            None
        }),
        c2.lookup(a.key) == Some(a.val@),
{
    let s = c.items@;
    let s2 = c2.items@;
    let n = s.len() as int;
    assert(sorted_between(s2, lo, hi)) by {
        assert forall|i: int, j: int| 0 <= i < j < s2.len() implies s2[i].key < s2[j].key by {
            assert(s2[i] == s[i]);
            if j < n {
                assert(s2[j] == s[j]);
            }
        }
        assert forall|i: int| 0 <= i < s2.len() implies lo < #[trigger] s2[i].key < hi by {
            if i < n {
                assert(s2[i] == s[i]);
            }
        }
    }
    if h > 0 {
        assert forall|i: int| #![trigger c2.children@[i]] 0 <= i < c2.children@.len() implies {
            &&& c2.children@[i].items.len() >= MIN_ITEMS
            &&& c2.children@[i].wf_at(c2.child_lo(i, lo), c2.child_hi(i, hi), (h - 1) as nat)
        } by {
            if i <= n {
                assert(c2.children@[i] == c.children@[i]);
            } else {
                assert(c2.children@[i] == g);
            }
        }
    }
    assert forall|k: i32| k < a.key implies #[trigger] c2.lookup(k) == c.lookup(k) by {
        lemma_lookup_sorted(c, k);
        let q = count_less(s, k) as int;
        assert(splits_at(s2, k, q));
        lemma_lookup_at(c2, k, q);
        lemma_lookup_at(c, k, q);
        if q < n {
            assert(s2[q] == s[q]);
        }
        if h > 0 {
            assert(c2.children@[q] == c.children@[q]);
        }
    }
    assert forall|k: i32| k > a.key implies #[trigger] c2.lookup(k) == (if h > 0 {
        g.lookup(k)
    } else {
        None
    }) by {
        assert(splits_at(s2, k, n + 1));
        lemma_lookup_at(c2, k, n + 1);
    }
    assert(splits_at(s2, a.key, n));
    lemma_lookup_at(c2, a.key, n);
}

/// Moving the last item of child `i - 1` up in place of separator `i - 1`,
/// and that separator down in front of child `i`, keeps the node a B-tree
/// with the same lookups.
pub proof fn lemma_rotate_right(n: Node, n2: Node, i: int, l2: Node, c2: Node, lo: int, hi: int, h: nat)
    requires
        n.wf_at(lo, hi, h),
        h > 0,
        1 <= i < n.children@.len(),
        n.children@[i - 1].items@.len() > 0,
        ({
            let l = *n.children@[i - 1];
            let c = *n.children@[i];
            let a = n.items@[i - 1];
            let t = l.items@.last();
            &&& n2.items@ == n.items@.update(i - 1, t)
            &&& n2.num_items == n.num_items
            &&& n2.children@ == n.children@.update(i - 1, Box::new(l2)).update(i, Box::new(c2))
            &&& l2.wf_at(n.child_lo(i - 1, lo), t.key as int, (h - 1) as nat)
            &&& l2.items@.len() >= MIN_ITEMS
            &&& c2.wf_at(t.key as int, n.child_hi(i, hi), (h - 1) as nat)
            &&& c2.items@.len() >= MIN_ITEMS
            &&& n.child_lo(i - 1, lo) < t.key < a.key
            &&& l.lookup(t.key) == Some(t.val@)
            &&& forall|k: i32| k < t.key ==> #[trigger] l2.lookup(k) == l.lookup(k)
            &&& forall|k: i32| t.key < k < a.key ==> #[trigger] c2.lookup(k) == l.lookup(k)
            &&& forall|k: i32| k > a.key ==> #[trigger] c2.lookup(k) == c.lookup(k)
            &&& c2.lookup(a.key) == Some(a.val@)
        }),
    ensures
        n2.wf_at(lo, hi, h),
        forall|k: i32| #[trigger] n2.lookup(k) == n.lookup(k),
{
    let l = *n.children@[i - 1];
    let a = n.items@[i - 1];
    let t = l.items@.last();
    let s = n.items@;
    let s2 = n2.items@;
    assert(sorted_between(s2, lo, hi)) by {
        assert forall|x: int, y: int| 0 <= x < y < s2.len() implies s2[x].key < s2[y].key by {
            if x == i - 1 {
                assert(s[x].key < s[y].key);
            } else if y == i - 1 {
                assert(s[x].key <= n.child_lo(i - 1, lo));
            }
        }
    }
    assert forall|j: int| #![trigger n2.children@[j]] 0 <= j < n2.children@.len() implies {
        &&& n2.children@[j].items.len() >= MIN_ITEMS
        &&& n2.children@[j].wf_at(n2.child_lo(j, lo), n2.child_hi(j, hi), (h - 1) as nat)
    } by {
        if j != i - 1 && j != i {
            assert(n2.children@[j] == n.children@[j]);
        }
    }
    assert forall|k: i32| #[trigger] n2.lookup(k) == n.lookup(k) by {
        lemma_lookup_sorted(n, k);
        let q = count_less(s, k) as int;
        lemma_lookup_at(n, k, q);
        if q < i - 1 || q > i {
            if q < i - 1 {
                assert(s[q].key <= s[i - 2].key);
            }
            assert(splits_at(s2, k, q));
            lemma_lookup_at(n2, k, q);
        } else if q == i - 1 {
            if k == a.key {
                assert(splits_at(s2, k, i));
                lemma_lookup_at(n2, k, i);
            } else if k < t.key {
                assert(splits_at(s2, k, i - 1));
                lemma_lookup_at(n2, k, i - 1);
            } else if k == t.key {
                assert(splits_at(s2, k, i - 1));
                lemma_lookup_at(n2, k, i - 1);
            } else {
                assert(splits_at(s2, k, i));
                lemma_lookup_at(n2, k, i);
            }
        } else {
            assert(splits_at(s2, k, i));
            lemma_lookup_at(n2, k, i);
        }
    }
}

/// Moving the first item of child `i + 1` up in place of separator `i`,
/// and that separator down behind child `i`, keeps the node a B-tree with
/// the same lookups.
pub proof fn lemma_rotate_left(n: Node, n2: Node, i: int, c2: Node, r2: Node, lo: int, hi: int, h: nat)
    requires
        n.wf_at(lo, hi, h),
        h > 0,
        0 <= i && i + 1 < n.children@.len(),
        n.children@[i + 1].items@.len() > 0,
        ({
            let c = *n.children@[i];
            let r = *n.children@[i + 1];
            let a = n.items@[i];
            let t = r.items@[0];
            &&& n2.items@ == n.items@.update(i, t)
            &&& n2.num_items == n.num_items
            &&& n2.children@ == n.children@.update(i, Box::new(c2)).update(i + 1, Box::new(r2))
            &&& c2.wf_at(n.child_lo(i, lo), t.key as int, (h - 1) as nat)
            &&& c2.items@.len() >= MIN_ITEMS
            &&& r2.wf_at(t.key as int, n.child_hi(i + 1, hi), (h - 1) as nat)
            &&& r2.items@.len() >= MIN_ITEMS
            &&& a.key < t.key < n.child_hi(i + 1, hi)
            &&& r.lookup(t.key) == Some(t.val@)
            &&& forall|k: i32| k > t.key ==> #[trigger] r2.lookup(k) == r.lookup(k)
            &&& forall|k: i32| a.key < k < t.key ==> #[trigger] c2.lookup(k) == r.lookup(k)
            &&& forall|k: i32| k < a.key ==> #[trigger] c2.lookup(k) == c.lookup(k)
            &&& c2.lookup(a.key) == Some(a.val@)
        }),
    ensures
        n2.wf_at(lo, hi, h),
        forall|k: i32| #[trigger] n2.lookup(k) == n.lookup(k),
{
    let r = *n.children@[i + 1];
    let a = n.items@[i];
    let t = r.items@[0];
    let s = n.items@;
    let s2 = n2.items@;
    assert(sorted_between(s2, lo, hi)) by {
        assert forall|x: int, y: int| 0 <= x < y < s2.len() implies s2[x].key < s2[y].key by {
            if y == i {
                assert(s[x].key < s[y].key);
            } else if x == i {
                assert(n.child_hi(i + 1, hi) <= s[y].key);
            }
        }
    }
    assert forall|j: int| #![trigger n2.children@[j]] 0 <= j < n2.children@.len() implies {
        &&& n2.children@[j].items.len() >= MIN_ITEMS
        &&& n2.children@[j].wf_at(n2.child_lo(j, lo), n2.child_hi(j, hi), (h - 1) as nat)
    } by {
        if j != i && j != i + 1 {
            assert(n2.children@[j] == n.children@[j]);
        }
    }
    assert forall|k: i32| #[trigger] n2.lookup(k) == n.lookup(k) by {
        lemma_lookup_sorted(n, k);
        let q = count_less(s, k) as int;
        lemma_lookup_at(n, k, q);
        if q < i || q > i + 1 {
            if q > i + 1 {
                assert(s[i + 1].key < k);
            }
            assert(splits_at(s2, k, q));
            lemma_lookup_at(n2, k, q);
        } else if q == i {
            if k == a.key {
                assert(splits_at(s2, k, i));
                lemma_lookup_at(n2, k, i);
            } else {
                assert(splits_at(s2, k, i));
                lemma_lookup_at(n2, k, i);
            }
        } else {
            if k < t.key {
                assert(splits_at(s2, k, i));
                lemma_lookup_at(n2, k, i);
            } else if k == t.key {
                assert(splits_at(s2, k, i));
                lemma_lookup_at(n2, k, i);
            } else {
                assert(splits_at(s2, k, i + 1));
                lemma_lookup_at(n2, k, i + 1);
            }
        }
    }
}

/// Moving the last child of `l` to the front of `c`'s children keeps both
/// free of duplicates, apart from each other, and within their old ids.
pub proof fn lemma_shift_right_unique(l: Node, c: Node, l2: Node, c2: Node)
    requires
        ids_unique(l),
        ids_unique(c),
        forall|z: u32| !(#[trigger] has_id(l, z) && #[trigger] has_id(c, z)),
        l2.id == l.id,
        c2.id == c.id,
        l.children@.len() == 0 ==> l2.children@.len() == 0 && c2.children@ == c.children@,
        l.children@.len() > 0 ==> l2.children@ == l.children@.drop_last() && c2.children@ == seq![
            l.children@.last(),
        ] + c.children@,
    ensures
        ids_unique(l2),
        ids_unique(c2),
        forall|z: u32| !(#[trigger] has_id(l2, z) && #[trigger] has_id(c2, z)),
        forall|z: u32| #[trigger] has_id(l2, z) ==> has_id(l, z),
        forall|z: u32| #[trigger] has_id(c2, z) ==> has_id(l, z) || has_id(c, z),
{
    let m = l.children@.len() as int;
    assert forall|k: int| 0 <= k < l2.children@.len() implies #[trigger] l2.children@[k] == l.children@[k] by {}
    assert forall|k: int| 0 <= k < c2.children@.len() implies #[trigger] c2.children@[k] == (if m > 0 {
        if k == 0 {
            l.children@[m - 1]
        } else {
            c.children@[k - 1]
        }
    } else {
        c.children@[k]
    }) by {}
    assert forall|z: u32| #[trigger] has_id(l2, z) implies has_id(l, z) by {
        if l2.id != z {
            let k = choose|k: int| #![trigger l2.children@[k]] 0 <= k < l2.children@.len() && has_id(*l2.children@[k], z);
            assert(has_id(*l.children@[k], z));
        }
    }
    assert forall|z: u32| #[trigger] has_id(c2, z) implies has_id(l, z) || has_id(c, z) by {
        if c2.id != z {
            let k = choose|k: int| #![trigger c2.children@[k]] 0 <= k < c2.children@.len() && has_id(*c2.children@[k], z);
            if m > 0 && k == 0 {
                assert(has_id(*l.children@[m - 1], z));
            } else if m > 0 {
                assert(has_id(*c.children@[k - 1], z));
            } else {
                assert(has_id(*c.children@[k], z));
            }
        }
    }
    assert(ids_unique(l2)) by {
        assert forall|i: int, j: int, z: u32| 0 <= i < l2.children@.len() && 0 <= j < l2.children@.len() && i != j && #[trigger] has_id(*l2.children@[i], z) implies !#[trigger] has_id(*l2.children@[j], z) by {
            assert(has_id(*l.children@[i], z));
        }
    }
    assert(ids_unique(c2)) by {
        assert forall|k: int| #![trigger c2.children@[k]] 0 <= k < c2.children@.len() implies !has_id(*c2.children@[k], c2.id) && ids_unique(*c2.children@[k]) by {
            assert(has_id(c, c.id));
            if m > 0 && k == 0 {
                assert(c2.children@[k] == l.children@[m - 1]);
                if has_id(*l.children@[m - 1], c.id) {
                    assert(has_id(l, c.id));
                }
            } else if m > 0 {
                assert(c2.children@[k] == c.children@[k - 1]);
            } else {
                assert(c2.children@[k] == c.children@[k]);
            }
        }
        assert forall|i: int, j: int, z: u32| 0 <= i < c2.children@.len() && 0 <= j < c2.children@.len() && i != j && #[trigger] has_id(*c2.children@[i], z) implies !#[trigger] has_id(*c2.children@[j], z) by {
            if has_id(*c2.children@[j], z) {
                if m > 0 && (i == 0 || j == 0) {
                    let o = if i == 0 { j } else { i };
                    assert(has_id(*l.children@[m - 1], z));
                    assert(has_id(*c.children@[o - 1], z));
                    assert(has_id(l, z));
                    assert(has_id(c, z));
                } else if m > 0 {
                    assert(has_id(*c.children@[i - 1], z));
                    assert(has_id(*c.children@[j - 1], z));
                } else {
                    assert(has_id(*c.children@[i], z));
                    assert(has_id(*c.children@[j], z));
                }
            }
        }
    }
    assert forall|z: u32| !(#[trigger] has_id(l2, z) && #[trigger] has_id(c2, z)) by {
        if has_id(l2, z) && has_id(c2, z) {
            assert(has_id(l, z));
            if !has_id(c, z) {
                let k = choose|k: int| #![trigger c2.children@[k]] 0 <= k < c2.children@.len() && has_id(*c2.children@[k], z);
                if c2.id == z {
                    assert(has_id(c, z));
                } else if m > 0 && k == 0 {
                    if l2.id == z {
                        assert(has_id(*l.children@[m - 1], l.id));
                    } else {
                        let q = choose|q: int| #![trigger l2.children@[q]] 0 <= q < l2.children@.len() && has_id(*l2.children@[q], z);
                        assert(has_id(*l.children@[q], z));
                        assert(has_id(*l.children@[m - 1], z));
                    }
                } else if m > 0 {
                    assert(has_id(*c.children@[k - 1], z));
                } else {
                    assert(has_id(*c.children@[k], z));
                }
            }
        }
    }
}

/// Moving the first child of `r` to the end of `c`'s children keeps both
/// free of duplicates, apart from each other, and within their old ids.
pub proof fn lemma_shift_left_unique(c: Node, r: Node, c2: Node, r2: Node)
    requires
        ids_unique(c),
        ids_unique(r),
        forall|z: u32| !(#[trigger] has_id(c, z) && #[trigger] has_id(r, z)),
        c2.id == c.id,
        r2.id == r.id,
        r.children@.len() == 0 ==> r2.children@.len() == 0 && c2.children@ == c.children@,
        r.children@.len() > 0 ==> r2.children@ == r.children@.drop_first() && c2.children@ == c.children@.push(
            r.children@[0],
        ),
    ensures
        ids_unique(c2),
        ids_unique(r2),
        forall|z: u32| !(#[trigger] has_id(c2, z) && #[trigger] has_id(r2, z)),
        forall|z: u32| #[trigger] has_id(r2, z) ==> has_id(r, z),
        forall|z: u32| #[trigger] has_id(c2, z) ==> has_id(c, z) || has_id(r, z),
{
    let m = r.children@.len() as int;
    let n = c.children@.len() as int;
    assert forall|k: int| 0 <= k < r2.children@.len() implies #[trigger] r2.children@[k] == r.children@[k + 1] by {}
    assert forall|k: int| 0 <= k < c2.children@.len() implies #[trigger] c2.children@[k] == (if k < n {
        c.children@[k]
    } else {
        r.children@[0]
    }) by {}
    assert forall|z: u32| #[trigger] has_id(r2, z) implies has_id(r, z) by {
        if r2.id != z {
            let k = choose|k: int| #![trigger r2.children@[k]] 0 <= k < r2.children@.len() && has_id(*r2.children@[k], z);
            assert(has_id(*r.children@[k + 1], z));
        }
    }
    assert forall|z: u32| #[trigger] has_id(c2, z) implies has_id(c, z) || has_id(r, z) by {
        if c2.id != z {
            let k = choose|k: int| #![trigger c2.children@[k]] 0 <= k < c2.children@.len() && has_id(*c2.children@[k], z);
            if k < n {
                assert(has_id(*c.children@[k], z));
            } else {
                assert(has_id(*r.children@[0], z));
            }
        }
    }
    assert(ids_unique(r2)) by {
        assert forall|k: int| #![trigger r2.children@[k]] 0 <= k < r2.children@.len() implies !has_id(*r2.children@[k], r2.id) && ids_unique(*r2.children@[k]) by {
            assert(r2.children@[k] == r.children@[k + 1]);
        }
        assert forall|i: int, j: int, z: u32| 0 <= i < r2.children@.len() && 0 <= j < r2.children@.len() && i != j && #[trigger] has_id(*r2.children@[i], z) implies !#[trigger] has_id(*r2.children@[j], z) by {
            assert(has_id(*r.children@[i + 1], z));
            if has_id(*r2.children@[j], z) {
                assert(has_id(*r.children@[j + 1], z));
            }
        }
    }
    assert(ids_unique(c2)) by {
        assert forall|k: int| #![trigger c2.children@[k]] 0 <= k < c2.children@.len() implies !has_id(*c2.children@[k], c2.id) && ids_unique(*c2.children@[k]) by {
            assert(has_id(c, c.id));
            if k >= n {
                assert(c2.children@[k] == r.children@[0]);
                if has_id(*r.children@[0], c.id) {
                    assert(has_id(r, c.id));
                }
            } else {
                assert(c2.children@[k] == c.children@[k]);
            }
        }
        assert forall|i: int, j: int, z: u32| 0 <= i < c2.children@.len() && 0 <= j < c2.children@.len() && i != j && #[trigger] has_id(*c2.children@[i], z) implies !#[trigger] has_id(*c2.children@[j], z) by {
            if has_id(*c2.children@[j], z) {
                if i >= n || j >= n {
                    let o = if i >= n { j } else { i };
                    assert(has_id(*r.children@[0], z));
                    assert(has_id(*c.children@[o], z));
                    assert(has_id(r, z));
                    assert(has_id(c, z));
                } else {
                    assert(has_id(*c.children@[i], z));
                    assert(has_id(*c.children@[j], z));
                }
            }
        }
    }
    assert forall|z: u32| !(#[trigger] has_id(c2, z) && #[trigger] has_id(r2, z)) by {
        if has_id(c2, z) && has_id(r2, z) {
            assert(has_id(r, z));
            if !has_id(c, z) {
                let k = choose|k: int| #![trigger c2.children@[k]] 0 <= k < c2.children@.len() && has_id(*c2.children@[k], z);
                if c2.id == z {
                    assert(has_id(c, z));
                } else if k < n {
                    assert(has_id(*c.children@[k], z));
                } else {
                    assert(has_id(*r.children@[0], z));
                    if r2.id == z {
                        assert(has_id(*r.children@[0], r.id));
                    } else {
                        let q = choose|q: int| #![trigger r2.children@[q]] 0 <= q < r2.children@.len() && has_id(*r2.children@[q], z);
                        assert(has_id(*r.children@[q + 1], z));
                    }
                }
            }
        }
    }
}

/// Two subtrees apart from each other, concatenated under the first's id,
/// are free of duplicates and hold only their ids.
pub proof fn lemma_concat_unique(l: Node, r: Node, m: Node)
    requires
        ids_unique(l),
        ids_unique(r),
        forall|z: u32| !(#[trigger] has_id(l, z) && #[trigger] has_id(r, z)),
        m.id == l.id,
        m.children@ == l.children@ + r.children@,
    ensures
        ids_unique(m),
        forall|z: u32| #[trigger] has_id(m, z) ==> has_id(l, z) || has_id(r, z),
{
    let n = l.children@.len() as int;
    assert forall|k: int| 0 <= k < m.children@.len() implies #[trigger] m.children@[k] == (if k < n {
        l.children@[k]
    } else {
        r.children@[k - n]
    }) by {}
    assert forall|z: u32| #[trigger] has_id(m, z) implies has_id(l, z) || has_id(r, z) by {
        if m.id != z {
            let k = choose|k: int| #![trigger m.children@[k]] 0 <= k < m.children@.len() && has_id(*m.children@[k], z);
            if k < n {
                assert(has_id(*l.children@[k], z));
            } else {
                assert(has_id(*r.children@[k - n], z));
            }
        }
    }
    assert forall|k: int| #![trigger m.children@[k]] 0 <= k < m.children@.len() implies !has_id(*m.children@[k], m.id) && ids_unique(*m.children@[k]) by {
        assert(has_id(l, l.id));
        if k >= n {
            assert(m.children@[k] == r.children@[k - n]);
            if has_id(*r.children@[k - n], l.id) {
                assert(has_id(r, l.id));
            }
        } else {
            assert(m.children@[k] == l.children@[k]);
        }
    }
    assert forall|i: int, j: int, z: u32| 0 <= i < m.children@.len() && 0 <= j < m.children@.len() && i != j && #[trigger] has_id(*m.children@[i], z) implies !#[trigger] has_id(*m.children@[j], z) by {
        if has_id(*m.children@[j], z) {
            if i < n && j < n {
                assert(has_id(*l.children@[i], z));
                assert(has_id(*l.children@[j], z));
            } else if i >= n && j >= n {
                assert(has_id(*r.children@[i - n], z));
                assert(has_id(*r.children@[j - n], z));
            } else {
                let a = if i < n { i } else { j };
                let b = if i < n { j } else { i };
                assert(has_id(*l.children@[a], z));
                assert(has_id(*r.children@[b - n], z));
                assert(has_id(l, z));
                assert(has_id(r, z));
            }
        }
    }
}

impl Node {
    /// Removes the last item, and the last child if there are children.
    fn take_last(&mut self) -> (r: (Item, Option<Box<Node>>))
        requires
            old(self).items@.len() >= 1,
            old(self).num_items == old(self).items@.len(),
        ensures
            final(self).id == old(self).id,
            final(self).items@ == old(self).items@.drop_last(),
            final(self).num_items == old(self).num_items - 1,
            r.0 == old(self).items@.last(),
            old(self).children@.len() == 0 ==> r.1 is None && final(self).children@.len() == 0,
            old(self).children@.len() > 0 ==> r.1 == Some(old(self).children@.last())
                && final(self).children@ == old(self).children@.drop_last(),
    {
        let it = self.items.pop().unwrap();
        self.num_items = self.num_items - 1;
        let child = self.children.pop();
        (it, child)
    }

    /// Removes the first item, and the first child if there are children.
    fn take_first(&mut self) -> (r: (Item, Option<Box<Node>>))
        requires
            old(self).items@.len() >= 1,
            old(self).num_items == old(self).items@.len(),
        ensures
            final(self).id == old(self).id,
            final(self).items@ == old(self).items@.drop_first(),
            final(self).num_items == old(self).num_items - 1,
            r.0 == old(self).items@[0],
            old(self).children@.len() == 0 ==> r.1 is None && final(self).children@.len() == 0,
            old(self).children@.len() > 0 ==> r.1 == Some(old(self).children@[0])
                && final(self).children@ == old(self).children@.drop_first(),
    {
        let it = self.items.remove(0);
        self.num_items = self.num_items - 1;
        let child = if self.children.len() > 0 {
            Some(self.children.remove(0))
        } else {
            None
        };
        proof {
            assert(self.items@ =~= old(self).items@.drop_first());
            assert(self.children@.len() > 0 ==> self.children@ =~= old(self).children@.drop_first());
        }
        (it, child)
    }

    /// Puts an item, and a child if one is given, in front.
    fn put_first(&mut self, it: Item, child: Option<Box<Node>>)
        requires
            old(self).num_items == old(self).items@.len() < MAX_ITEMS,
        ensures
            final(self).id == old(self).id,
            final(self).items@ == seq![it] + old(self).items@,
            final(self).num_items == old(self).num_items + 1,
            child is None ==> final(self).children@ == old(self).children@,
            child is Some ==> final(self).children@ == seq![child->0] + old(self).children@,
    {
        self.items.insert(0, it);
        self.num_items = self.num_items + 1;
        match child {
            Some(c) => {
                self.children.insert(0, c);
            },
            None => {},
        }
        proof {
            assert(self.items@ =~= seq![it] + old(self).items@);
            assert(child is Some ==> self.children@ =~= seq![child->0] + old(self).children@);
        }
    }

    /// Puts an item, and a child if one is given, behind.
    fn put_last(&mut self, it: Item, child: Option<Box<Node>>)
        requires
            old(self).num_items == old(self).items@.len() < MAX_ITEMS,
        ensures
            final(self).id == old(self).id,
            final(self).items@ == old(self).items@.push(it),
            final(self).num_items == old(self).num_items + 1,
            child is None ==> final(self).children@ == old(self).children@,
            child is Some ==> final(self).children@ == old(self).children@.push(child->0),
    {
        self.items.push(it);
        self.num_items = self.num_items + 1;
        match child {
            Some(c) => {
                self.children.push(c);
            },
            None => {},
        }
    }

    /// Rotates right around separator `i - 1`: child `i - 1` gives its last
    /// item to the parent, whose separator moves to the front of child `i`,
    /// along with the last child of `i - 1`.
    pub fn borrow_from_prev(&mut self, i: usize, Ghost(lo): Ghost<int>, Ghost(hi): Ghost<int>, Ghost(h): Ghost<nat>)
        requires
            old(self).wf_at(lo, hi, h),
            h > 0,
            1 <= i < old(self).children@.len(),
            old(self).children@[i - 1].items@.len() > MIN_ITEMS,
            old(self).children@[i as int].items@.len() < MAX_ITEMS,
        ensures
            final(self).wf_at(lo, hi, h),
            final(self).id == old(self).id,
            final(self).items@.len() == old(self).items@.len(),
            final(self).children@[i as int].items@.len() == old(self).children@[i as int].items@.len() + 1,
            forall|k: i32| #[trigger] final(self).lookup(k) == old(self).lookup(k),
            forall|j: int| 0 <= j < old(self).items@.len() && j != i - 1 ==> #[trigger] final(self).items@[j] == old(self).items@[j],
            final(self).items@[i - 1].key < old(self).items@[i - 1].key,
            ids_unique(*old(self)) ==> ids_unique(*final(self)) && forall|z: u32| #[trigger] has_id(*final(self), z) ==> has_id(*old(self), z),
            forall|np: u32| #[trigger] ids_in(*old(self), np) ==> ids_in(*final(self), np),
    {
        let ghost n = *self;
        let ghost l = *n.children@[i - 1];
        let ghost c = *n.children@[i as int];
        let ghost a = n.items@[i - 1];
        let ghost clo = n.child_lo(i - 1, lo);
        let ghost chi = n.child_hi(i as int, hi);
        proof {
            assert(l.wf_at(clo, a.key as int, (h - 1) as nat));
            assert(c.wf_at(a.key as int, chi, (h - 1) as nat));
        }
        let (t, g) = self.children[i - 1].take_last();
        let ghost l2 = *self.children@[i - 1];
        let ghost gn = if h > 1 { *l.children@.last() } else { l };
        proof {
            let ln = l.items@.len() as int;
            lemma_prefix(l, l2, ln - 1, clo, a.key as int, (h - 1) as nat);
            assert forall|k: i32| t.key < k < a.key implies #[trigger] l.lookup(k) == (if h > 1 {
                gn.lookup(k)
            } else {
                None
            }) by {
                assert(splits_at(l.items@, k, ln));
                lemma_lookup_at(l, k, ln);
            }
            assert(splits_at(l.items@, t.key, ln - 1));
            lemma_lookup_at(l, t.key, ln - 1);
            if h > 1 {
                assert(l.children@[ln] == gn);
                assert(gn.wf_at(l.child_lo(ln, clo), l.child_hi(ln, a.key as int), (h - 2) as nat));
            }
        }
        let a_exec = self.items.remove(i - 1);
        self.items.insert(i - 1, t);
        self.children[i].put_first(a_exec, g);
        proof {
            let c2 = *self.children@[i as int];
            lemma_put_first(c, c2, a, gn, t.key as int, chi, (h - 1) as nat);
            assert(self.items@ =~= n.items@.update(i - 1, t));
            assert(self.children@ =~= n.children@.update(i - 1, Box::new(l2)).update(i as int, Box::new(c2)));
            lemma_rotate_right(n, *self, i as int, l2, c2, lo, hi, h);
            if ids_unique(n) {
                assert(ids_unique(l) && ids_unique(c));
                assert forall|z: u32| !(#[trigger] has_id(l, z) && #[trigger] has_id(c, z)) by {
                    if has_id(l, z) {
                        assert(has_id(*n.children@[i - 1], z));
                    }
                }
                lemma_shift_right_unique(l, c, l2, c2);
                lemma_pair_replaced_unique(n, *self, i - 1, l2, c2);
            }
            assert forall|np: u32| #[trigger] ids_in(n, np) implies ids_in(*self, np) by {
                assert(ids_in(l, np) && ids_in(c, np));
                assert forall|x: int| #![trigger l2.children@[x]] 0 <= x < l2.children@.len() implies ids_in(*l2.children@[x], np) by {
                    assert(l2.children@[x] == l.children@[x]);
                }
                assert forall|x: int| #![trigger c2.children@[x]] 0 <= x < c2.children@.len() implies ids_in(*c2.children@[x], np) by {
                    if x > 0 {
                        assert(c2.children@[x] == c.children@[x - 1]);
                    } else {
                        assert(c2.children@[0] == gn);
                        assert(gn == l.children@[l.children@.len() - 1]);
                    }
                }
                assert forall|j: int| #![trigger self.children@[j]] 0 <= j < self.children@.len() implies ids_in(*self.children@[j], np) by {
                    if j != i - 1 && j != i {
                        assert(self.children@[j] == n.children@[j]);
                    }
                }
            }
        }
    }

    /// Rotates left around separator `i`: child `i + 1` gives its first item
    /// to the parent, whose separator moves behind child `i`, along with the
    /// first child of `i + 1`.
    pub fn borrow_from_next(&mut self, i: usize, Ghost(lo): Ghost<int>, Ghost(hi): Ghost<int>, Ghost(h): Ghost<nat>)
        requires
            old(self).wf_at(lo, hi, h),
            h > 0,
            i + 1 < old(self).children@.len(),
            old(self).children@[i + 1].items@.len() > MIN_ITEMS,
            old(self).children@[i as int].items@.len() < MAX_ITEMS,
        ensures
            final(self).wf_at(lo, hi, h),
            final(self).id == old(self).id,
            final(self).items@.len() == old(self).items@.len(),
            final(self).children@[i as int].items@.len() == old(self).children@[i as int].items@.len() + 1,
            forall|k: i32| #[trigger] final(self).lookup(k) == old(self).lookup(k),
            forall|j: int| 0 <= j < old(self).items@.len() && j != i ==> #[trigger] final(self).items@[j] == old(self).items@[j],
            final(self).items@[i as int].key > old(self).items@[i as int].key,
            ids_unique(*old(self)) ==> ids_unique(*final(self)) && forall|z: u32| #[trigger] has_id(*final(self), z) ==> has_id(*old(self), z),
            forall|np: u32| #[trigger] ids_in(*old(self), np) ==> ids_in(*final(self), np),
    {
        let ghost n = *self;
        let ghost c = *n.children@[i as int];
        let ghost r = *n.children@[i + 1];
        let ghost a = n.items@[i as int];
        let ghost clo = n.child_lo(i as int, lo);
        let ghost chi = n.child_hi(i + 1, hi);
        proof {
            assert(r.wf_at(a.key as int, chi, (h - 1) as nat));
            assert(c.wf_at(clo, a.key as int, (h - 1) as nat));
        }
        let (t, g) = self.children[i + 1].take_first();
        let ghost r2 = *self.children@[i + 1];
        let ghost gn = if h > 1 { *r.children@[0] } else { r };
        proof {
            lemma_suffix(r, r2, 0, a.key as int, chi, (h - 1) as nat);
            assert(r2.items@ =~= r.items@.subrange(1, r.items@.len() as int));
            assert(h > 1 ==> r2.children@ =~= r.children@.subrange(1, r.children@.len() as int));
            assert forall|k: i32| a.key < k < t.key implies #[trigger] r.lookup(k) == (if h > 1 {
                gn.lookup(k)
            } else {
                None
            }) by {
                assert(splits_at(r.items@, k, 0));
                lemma_lookup_at(r, k, 0);
            }
            assert(splits_at(r.items@, t.key, 0));
            lemma_lookup_at(r, t.key, 0);
            if h > 1 {
                assert(gn.wf_at(r.child_lo(0, a.key as int), r.child_hi(0, chi), (h - 2) as nat));
            }
        }
        let a_exec = self.items.remove(i);
        self.items.insert(i, t);
        self.children[i].put_last(a_exec, g);
        proof {
            let c2 = *self.children@[i as int];
            lemma_put_last(c, c2, a, gn, clo, t.key as int, (h - 1) as nat);
            assert(self.items@ =~= n.items@.update(i as int, t));
            assert(self.children@ =~= n.children@.update(i as int, Box::new(c2)).update(i + 1, Box::new(r2)));
            lemma_rotate_left(n, *self, i as int, c2, r2, lo, hi, h);
            if ids_unique(n) {
                assert(ids_unique(c) && ids_unique(r));
                assert forall|z: u32| !(#[trigger] has_id(c, z) && #[trigger] has_id(r, z)) by {
                    if has_id(c, z) {
                        assert(has_id(*n.children@[i as int], z));
                    }
                }
                lemma_shift_left_unique(c, r, c2, r2);
                lemma_pair_replaced_unique(n, *self, i as int, c2, r2);
            }
            assert forall|np: u32| #[trigger] ids_in(n, np) implies ids_in(*self, np) by {
                assert(ids_in(r, np) && ids_in(c, np));
                assert forall|x: int| #![trigger r2.children@[x]] 0 <= x < r2.children@.len() implies ids_in(*r2.children@[x], np) by {
                    assert(r2.children@[x] == r.children@[x + 1]);
                }
                assert forall|x: int| #![trigger c2.children@[x]] 0 <= x < c2.children@.len() implies ids_in(*c2.children@[x], np) by {
                    if x < c.children@.len() {
                        assert(c2.children@[x] == c.children@[x]);
                    } else {
                        assert(c2.children@[x] == gn);
                        assert(gn == r.children@[0]);
                    }
                }
                assert forall|j: int| #![trigger self.children@[j]] 0 <= j < self.children@.len() implies ids_in(*self.children@[j], np) by {
                    if j != i && j != i + 1 {
                        assert(self.children@[j] == n.children@[j]);
                    }
                }
            }
        }
    }
}

/// Two B-trees and the item between them, concatenated, form a B-tree that
/// answers each lookup as the part that the key falls in does.
pub proof fn lemma_merge_node(l: Node, m: Item, r: Node, mg: Node, lo: int, hi: int, h: nat)
    requires
        l.wf_at(lo, m.key as int, h),
        r.wf_at(m.key as int, hi, h),
        lo < m.key < hi,
        mg.items@ == l.items@.push(m) + r.items@,
        mg.children@ == l.children@ + r.children@,
        mg.num_items == mg.items@.len(),
        mg.items@.len() <= MAX_ITEMS,
    ensures
        mg.wf_at(lo, hi, h),
        forall|k: i32| k < m.key ==> #[trigger] l.lookup(k) == mg.lookup(k),
        forall|k: i32| k > m.key ==> #[trigger] r.lookup(k) == mg.lookup(k),
        mg.lookup(m.key) == Some(m.val@),
{
    let sl = l.items@;
    let sr = r.items@;
    let s = mg.items@;
    let nl = sl.len() as int;
    assert forall|i: int| 0 <= i < nl implies s[i] == sl[i] by {}
    assert forall|i: int| 0 <= i < sr.len() implies s[nl + 1 + i] == sr[i] by {}
    assert(s[nl] == m);
    assert(sorted_between(s, lo, hi)) by {
        assert forall|x: int, y: int| 0 <= x < y < s.len() implies s[x].key < s[y].key by {
            if y < nl {
            } else if y == nl {
                assert(s[x] == sl[x]);
            } else if x < nl {
                assert(s[y] == sr[y - nl - 1]);
            } else if x == nl {
                assert(s[y] == sr[y - nl - 1]);
            } else {
                assert(s[y] == sr[y - nl - 1]);
                assert(s[x] == sr[x - nl - 1]);
            }
        }
        assert forall|x: int| 0 <= x < s.len() implies lo < #[trigger] s[x].key < hi by {
            if x < nl {
                assert(s[x] == sl[x]);
            } else if x > nl {
                assert(s[x] == sr[x - nl - 1]);
            }
        }
    }
    if h > 0 {
        assert forall|j: int| #![trigger mg.children@[j]] 0 <= j < mg.children@.len() implies {
            &&& mg.children@[j].items.len() >= MIN_ITEMS
            &&& mg.children@[j].wf_at(mg.child_lo(j, lo), mg.child_hi(j, hi), (h - 1) as nat)
        } by {
            if j <= nl {
                assert(mg.children@[j] == l.children@[j]);
            } else {
                assert(mg.children@[j] == r.children@[j - nl - 1]);
            }
        }
    }
    assert forall|k: i32| k < m.key implies #[trigger] l.lookup(k) == mg.lookup(k) by {
        lemma_lookup_sorted(l, k);
        let q = count_less(sl, k) as int;
        assert(splits_at(s, k, q));
        lemma_lookup_at(l, k, q);
        lemma_lookup_at(mg, k, q);
        if h > 0 {
            assert(mg.children@[q] == l.children@[q]);
        }
    }
    assert forall|k: i32| k > m.key implies #[trigger] r.lookup(k) == mg.lookup(k) by {
        lemma_lookup_sorted(r, k);
        let q = count_less(sr, k) as int;
        assert(splits_at(s, k, nl + 1 + q));
        lemma_lookup_at(r, k, q);
        lemma_lookup_at(mg, k, nl + 1 + q);
        if h > 0 {
            assert(mg.children@[nl + 1 + q] == r.children@[q]);
        }
    }
    assert(splits_at(s, m.key, nl));
    lemma_lookup_at(mg, m.key, nl);
}

/// After child `i + 1` and separator `i` are merged into child `i`, the
/// node is still a B-tree.
proof fn lemma_merged_parent_wf(n: Node, n2: Node, i: int, mg: Node, lo: int, hi: int, h: nat)
    requires
        n.wf_at(lo, hi, h),
        h > 0,
        0 <= i && i + 1 < n.children@.len(),
        n2.items@ == n.items@.remove(i),
        n2.num_items == n.num_items - 1,
        n2.children@ == n.children@.remove(i + 1).update(i, Box::new(mg)),
        mg.items@ == n.children@[i].items@.push(n.items@[i]) + n.children@[i + 1].items@,
        mg.children@ == n.children@[i].children@ + n.children@[i + 1].children@,
        mg.num_items == mg.items@.len(),
        mg.items@.len() <= MAX_ITEMS,
    ensures
        n2.wf_at(lo, hi, h),
        forall|k: i32| k < n.items@[i].key ==> #[trigger] n.children@[i].lookup(k) == mg.lookup(k),
        forall|k: i32| k > n.items@[i].key ==> #[trigger] n.children@[i + 1].lookup(k) == mg.lookup(k),
        mg.lookup(n.items@[i].key) == Some(n.items@[i].val@),
{
    let l = *n.children@[i];
    let r = *n.children@[i + 1];
    let m = n.items@[i];
    assert(l.wf_at(n.child_lo(i, lo), m.key as int, (h - 1) as nat));
    assert(r.wf_at(m.key as int, n.child_hi(i + 1, hi), (h - 1) as nat));
    lemma_merge_node(l, m, r, mg, n.child_lo(i, lo), n.child_hi(i + 1, hi), (h - 1) as nat);
    assert(n2.items@ =~= n.items@.remove(i));
    assert(sorted_between(n2.items@, lo, hi)) by {
        assert forall|x: int, y: int| 0 <= x < y < n2.items@.len() implies n2.items@[x].key
            < n2.items@[y].key by {
            if x >= i {
                assert(n2.items@[x] == n.items@[x + 1]);
            }
            if y >= i {
                assert(n2.items@[y] == n.items@[y + 1]);
            }
        }
        assert forall|x: int| 0 <= x < n2.items@.len() implies lo < #[trigger] n2.items@[x].key
            < hi by {
            if x >= i {
                assert(n2.items@[x] == n.items@[x + 1]);
            }
        }
    }
    assert forall|j: int| #![trigger n2.children@[j]] 0 <= j < n2.children@.len() implies {
        &&& n2.children@[j].items.len() >= MIN_ITEMS
        &&& n2.children@[j].wf_at(n2.child_lo(j, lo), n2.child_hi(j, hi), (h - 1) as nat)
    } by {
        if j < i {
            assert(n2.children@[j] == n.children@[j]);
        } else if j > i {
            assert(n2.children@[j] == n.children@[j + 1]);
            assert(n.children@[j + 1].wf_at(n.child_lo(j + 1, lo), n.child_hi(j + 1, hi), (h - 1) as nat));
        }
    }
}

/// After child `i + 1` and separator `i` are merged into child `i`, the
/// node is still a B-tree with the same lookups.
proof fn lemma_parent_after_merge(n: Node, n2: Node, i: int, mg: Node, lo: int, hi: int, h: nat)
    requires
        n.wf_at(lo, hi, h),
        h > 0,
        0 <= i && i + 1 < n.children@.len(),
        n2.items@ == n.items@.remove(i),
        n2.num_items == n.num_items - 1,
        n2.children@ == n.children@.remove(i + 1).update(i, Box::new(mg)),
        mg.items@ == n.children@[i].items@.push(n.items@[i]) + n.children@[i + 1].items@,
        mg.children@ == n.children@[i].children@ + n.children@[i + 1].children@,
        mg.num_items == mg.items@.len(),
        mg.items@.len() <= MAX_ITEMS,
    ensures
        n2.wf_at(lo, hi, h),
        forall|k: i32| #[trigger] n2.lookup(k) == n.lookup(k),
{
    let l = *n.children@[i];
    let r = *n.children@[i + 1];
    let m = n.items@[i];
    lemma_merged_parent_wf(n, n2, i, mg, lo, hi, h);
    assert(n2.wf_at(lo, hi, h));
    assert(n.items@ =~= n2.items@.insert(i, m));
    assert(n.children@ =~= n2.children@.update(i, Box::new(l)).insert(i + 1, Box::new(r)));
    assert forall|k: i32| #[trigger] n2.lookup(k) == n.lookup(k) by {
        lemma_split_lookup(n2, n, i, l, r, m, lo, hi, h, k);
    }
}


impl Node {
    /// Appends `sep` and then the items and children of `right`.
    fn absorb(&mut self, sep: Item, right: Node)
        requires
            old(self).num_items == old(self).items@.len(),
            right.num_items == right.items@.len(),
            old(self).items@.len() + right.items@.len() + 1 <= MAX_ITEMS,
        ensures
            final(self).id == old(self).id,
            final(self).items@ == old(self).items@.push(sep) + right.items@,
            final(self).children@ == old(self).children@ + right.children@,
            final(self).num_items == final(self).items@.len(),
    {
        let mut right = right;
        self.items.push(sep);
        self.items.append(&mut right.items);
        self.children.append(&mut right.children);
        self.num_items = self.num_items + 1 + right.num_items;
    }

    /// Merges child `i + 1` into child `i`, pulling separator `i` down
    /// between them; the merged child keeps the page id of child `i`.
    pub fn merge_children(&mut self, i: usize, Ghost(lo): Ghost<int>, Ghost(hi): Ghost<int>, Ghost(h): Ghost<nat>)
        requires
            old(self).wf_at(lo, hi, h),
            h > 0,
            i + 1 < old(self).children@.len(),
            old(self).children@[i as int].items@.len() + old(self).children@[i + 1].items@.len() + 1
                <= MAX_ITEMS,
        ensures
            final(self).wf_at(lo, hi, h),
            final(self).id == old(self).id,
            final(self).items@.len() == old(self).items@.len() - 1,
            final(self).children@[i as int].items@.len() == old(self).children@[i as int].items@.len()
                + old(self).children@[i + 1].items@.len() + 1,
            forall|k: i32| #[trigger] final(self).lookup(k) == old(self).lookup(k),
            final(self).items@ == old(self).items@.remove(i as int),
            final(self).children@[i as int].id == old(self).children@[i as int].id,
            ids_unique(*old(self)) ==> ids_unique(*final(self)) && forall|z: u32| #[trigger] has_id(*final(self), z) ==> has_id(*old(self), z),
            final(self).children@.len() == old(self).children@.len() - 1,
            forall|np: u32| #[trigger] ids_in(*old(self), np) ==> ids_in(*final(self), np),
    {
        let ghost n = *self;
        let ghost l = *n.children@[i as int];
        let ghost r = *n.children@[i + 1];
        let ghost m = n.items@[i as int];
        proof {
            assert(l.wf_at(n.child_lo(i as int, lo), m.key as int, (h - 1) as nat));
            assert(r.wf_at(m.key as int, n.child_hi(i + 1, hi), (h - 1) as nat));
        }
        let right = self.children.remove(i + 1);
        let sep = self.items.remove(i);
        self.num_items = self.num_items - 1;
        self.children[i].absorb(sep, *right);
        proof {
            assert(self.children@ =~= n.children@.remove(i + 1).update(i as int, self.children@[i as int]));
            lemma_parent_after_merge(n, *self, i as int, *self.children@[i as int], lo, hi, h);
            let mg = *self.children@[i as int];
            if ids_unique(n) {
                assert(ids_unique(l) && ids_unique(r));
                assert forall|z: u32| !(#[trigger] has_id(l, z) && #[trigger] has_id(r, z)) by {
                    if has_id(l, z) {
                        assert(has_id(*n.children@[i as int], z));
                    }
                }
                lemma_concat_unique(l, r, mg);
                assert(self.children@ =~= n.children@.remove(i + 1).update(i as int, Box::new(mg)));
                lemma_pair_merged_unique(n, *self, i as int, mg);
            }
            assert forall|np: u32| #[trigger] ids_in(n, np) implies ids_in(*self, np) by {
                assert(ids_in(l, np) && ids_in(r, np));
                assert forall|x: int| #![trigger mg.children@[x]] 0 <= x < mg.children@.len() implies ids_in(*mg.children@[x], np) by {
                    if x < l.children@.len() {
                        assert(mg.children@[x] == l.children@[x]);
                    } else {
                        assert(mg.children@[x] == r.children@[x - l.children@.len()]);
                    }
                }
                assert forall|j: int| #![trigger self.children@[j]] 0 <= j < self.children@.len() implies ids_in(*self.children@[j], np) by {
                    if j < i {
                        assert(self.children@[j] == n.children@[j]);
                    } else if j > i {
                        assert(self.children@[j] == n.children@[j + 1]);
                    }
                }
            }
        }
    }
}

/// A B-tree has nothing stored outside its bounds.
pub proof fn lemma_lookup_out(n: Node, lo: int, hi: int, h: nat, k: i32)
    requires
        n.wf_at(lo, hi, h),
        k <= lo || k >= hi,
    ensures
        n.lookup(k) is None,
    decreases h,
{
    let s = n.items@;
    if k <= lo {
        assert(splits_at(s, k, 0));
        lemma_lookup_at(n, k, 0);
        if h > 0 {
            assert(n.children@[0].wf_at(n.child_lo(0, lo), n.child_hi(0, hi), (h - 1) as nat));
            lemma_lookup_out(*n.children@[0], n.child_lo(0, lo), n.child_hi(0, hi), (h - 1) as nat, k);
        }
    } else {
        let len = s.len() as int;
        assert(splits_at(s, k, len));
        lemma_lookup_at(n, k, len);
        if h > 0 {
            assert(n.children@[len].wf_at(n.child_lo(len, lo), n.child_hi(len, hi), (h - 1) as nat));
            lemma_lookup_out(*n.children@[len], n.child_lo(len, lo), n.child_hi(len, hi), (h - 1) as nat, k);
        }
    }
}

/// Wider bounds hold of a B-tree too.
pub proof fn lemma_widen(n: Node, lo: int, hi: int, lo2: int, hi2: int, h: nat)
    requires
        n.wf_at(lo, hi, h),
        lo2 <= lo,
        hi <= hi2,
    ensures
        n.wf_at(lo2, hi2, h),
    decreases h,
{
    if h > 0 {
        assert forall|i: int| #![trigger n.children@[i]] 0 <= i < n.children@.len() implies {
            &&& n.children@[i].items.len() >= MIN_ITEMS
            &&& n.children@[i].wf_at(n.child_lo(i, lo2), n.child_hi(i, hi2), (h - 1) as nat)
        } by {
            assert(n.children@[i].wf_at(n.child_lo(i, lo), n.child_hi(i, hi), (h - 1) as nat));
            lemma_widen(
                *n.children@[i],
                n.child_lo(i, lo),
                n.child_hi(i, hi),
                n.child_lo(i, lo2),
                n.child_hi(i, hi2),
                (h - 1) as nat,
            );
        }
    }
}

/// A B-tree with nothing stored from `b` on is bounded above by `b`.
pub proof fn lemma_tighten_hi(n: Node, lo: int, hi: int, b: int, h: nat)
    requires
        n.wf_at(lo, hi, h),
        lo < b <= hi,
        forall|k: i32| b <= k ==> (#[trigger] n.lookup(k)) is None,
    ensures
        n.wf_at(lo, b, h),
    decreases h,
{
    let s = n.items@;
    let len = s.len() as int;
    assert forall|j: int| 0 <= j < len implies #[trigger] s[j].key < b by {
        assert(splits_at(s, s[j].key, j));
        lemma_lookup_at(n, s[j].key, j);
    }
    if h > 0 {
        let last = *n.children@[len];
        let llo = n.child_lo(len, lo);
        assert(last.wf_at(llo, hi, (h - 1) as nat));
        assert forall|k: i32| b <= k implies (#[trigger] last.lookup(k)) is None by {
            assert(splits_at(s, k, len));
            lemma_lookup_at(n, k, len);
        }
        lemma_tighten_hi(last, llo, hi, b, (h - 1) as nat);
        assert forall|i: int| #![trigger n.children@[i]] 0 <= i < n.children@.len() implies {
            &&& n.children@[i].items.len() >= MIN_ITEMS
            &&& n.children@[i].wf_at(n.child_lo(i, lo), n.child_hi(i, b), (h - 1) as nat)
        } by {
            assert(n.children@[i].wf_at(n.child_lo(i, lo), n.child_hi(i, hi), (h - 1) as nat));
        }
    }
}

/// A B-tree with nothing stored up to `b` is bounded below by `b`.
pub proof fn lemma_tighten_lo(n: Node, lo: int, hi: int, b: int, h: nat)
    requires
        n.wf_at(lo, hi, h),
        lo <= b < hi,
        forall|k: i32| k <= b ==> (#[trigger] n.lookup(k)) is None,
    ensures
        n.wf_at(b, hi, h),
    decreases h,
{
    let s = n.items@;
    assert forall|j: int| 0 <= j < s.len() implies #[trigger] s[j].key > b by {
        assert(splits_at(s, s[j].key, j));
        lemma_lookup_at(n, s[j].key, j);
    }
    if h > 0 {
        let first = *n.children@[0];
        let fhi = n.child_hi(0, hi);
        assert(first.wf_at(lo, fhi, (h - 1) as nat));
        assert forall|k: i32| k <= b implies (#[trigger] first.lookup(k)) is None by {
            assert(splits_at(s, k, 0));
            lemma_lookup_at(n, k, 0);
        }
        lemma_tighten_lo(first, lo, fhi, b, (h - 1) as nat);
        assert forall|i: int| #![trigger n.children@[i]] 0 <= i < n.children@.len() implies {
            &&& n.children@[i].items.len() >= MIN_ITEMS
            &&& n.children@[i].wf_at(n.child_lo(i, b), n.child_hi(i, hi), (h - 1) as nat)
        } by {
            assert(n.children@[i].wf_at(n.child_lo(i, lo), n.child_hi(i, hi), (h - 1) as nat));
        }
    }
}

/// `new` answers every lookup as `old` does, but has nothing under `key`.
pub open spec fn removes(new: Node, old: Node, key: i32) -> bool {
    forall|k: i32|
        #[trigger] new.lookup(k) == (if k == key {
            None
        } else {
            old.lookup(k)
        })
}

/// Removing an item from a leaf keeps it a B-tree without that key.
pub proof fn lemma_leaf_remove(n: Node, n2: Node, pos: int, lo: int, hi: int)
    requires
        n.wf_at(lo, hi, 0),
        0 <= pos < n.items@.len(),
        n2.items@ == n.items@.remove(pos),
        n2.num_items == n.num_items - 1,
        n2.children@.len() == 0,
    ensures
        n2.wf_at(lo, hi, 0),
        removes(n2, n, n.items@[pos].key),
{
    let s = n.items@;
    let s2 = n2.items@;
    let key = s[pos].key;
    assert(sorted_between(s2, lo, hi)) by {
        assert forall|x: int, y: int| 0 <= x < y < s2.len() implies s2[x].key < s2[y].key by {
            if x >= pos {
                assert(s2[x] == s[x + 1]);
            }
            if y >= pos {
                assert(s2[y] == s[y + 1]);
            }
        }
        assert forall|x: int| 0 <= x < s2.len() implies lo < #[trigger] s2[x].key < hi by {
            if x >= pos {
                assert(s2[x] == s[x + 1]);
            }
        }
    }
    assert forall|k: i32| #[trigger] n2.lookup(k) == (if k == key {
        None
    } else {
        n.lookup(k)
    }) by {
        lemma_lookup_sorted(n, k);
        let q = count_less(s, k) as int;
        lemma_lookup_at(n, k, q);
        if k < key {
            assert(splits_at(s2, k, q));
            lemma_lookup_at(n2, k, q);
        } else if k == key {
            assert(splits_at(s2, k, pos));
            lemma_lookup_at(n2, k, pos);
            if pos < s2.len() {
                assert(s2[pos] == s[pos + 1]);
            }
        } else {
            assert(splits_at(s2, k, q - 1));
            lemma_lookup_at(n2, k, q - 1);
            if q - 1 < s2.len() {
                assert(s2[q - 1] == s[q]);
            }
        }
    }
}

/// Separator `pos` replaced by the largest item under child `pos`, which
/// that child no longer holds: a B-tree without the old separator's key.
pub proof fn lemma_replace_with_pred(n: Node, n2: Node, pos: int, p: Item, c2: Node, lo: int, hi: int, h: nat)
    requires
        n.wf_at(lo, hi, h),
        h > 0,
        0 <= pos < n.items@.len(),
        n2.items@ == n.items@.update(pos, p),
        n2.num_items == n.num_items,
        n2.children@ == n.children@.update(pos, Box::new(c2)),
        n.child_lo(pos, lo) < p.key < n.items@[pos].key,
        n.children@[pos].lookup(p.key) == Some(p.val@),
        forall|k: i32| k > p.key ==> (#[trigger] n.children@[pos].lookup(k)) is None,
        c2.wf_at(n.child_lo(pos, lo), n.items@[pos].key as int, (h - 1) as nat),
        c2.items@.len() >= MIN_ITEMS,
        removes(c2, *n.children@[pos], p.key),
    ensures
        n2.wf_at(lo, hi, h),
        removes(n2, n, n.items@[pos].key),
{
    let s = n.items@;
    let s2 = n2.items@;
    let k0 = s[pos].key;
    let c = *n.children@[pos];
    let clo = n.child_lo(pos, lo);
    assert forall|k: i32| p.key <= k implies (#[trigger] c2.lookup(k)) is None by {}
    lemma_tighten_hi(c2, clo, k0 as int, p.key as int, (h - 1) as nat);
    let r = *n.children@[pos + 1];
    let rhi = n.child_hi(pos + 1, hi);
    assert(r.wf_at(k0 as int, rhi, (h - 1) as nat));
    lemma_widen(r, k0 as int, rhi, p.key as int, rhi, (h - 1) as nat);
    assert(sorted_between(s2, lo, hi)) by {
        assert forall|x: int, y: int| 0 <= x < y < s2.len() implies s2[x].key < s2[y].key by {
            if y == pos {
                assert(s[x].key <= clo);
            } else if x == pos {
                assert(s[x].key < s[y].key);
            }
        }
    }
    assert forall|j: int| #![trigger n2.children@[j]] 0 <= j < n2.children@.len() implies {
        &&& n2.children@[j].items.len() >= MIN_ITEMS
        &&& n2.children@[j].wf_at(n2.child_lo(j, lo), n2.child_hi(j, hi), (h - 1) as nat)
    } by {
        if j != pos {
            assert(n2.children@[j] == n.children@[j]);
        }
    }
    assert forall|k: i32| #[trigger] n2.lookup(k) == (if k == k0 {
        None
    } else {
        n.lookup(k)
    }) by {
        lemma_lookup_sorted(n, k);
        let q = count_less(s, k) as int;
        lemma_lookup_at(n, k, q);
        if q < pos {
            assert(s[q].key <= clo);
            assert(splits_at(s2, k, q));
            lemma_lookup_at(n2, k, q);
        } else if q > pos {
            assert(splits_at(s2, k, q));
            lemma_lookup_at(n2, k, q);
        } else if k == k0 || p.key < k {
            assert(splits_at(s2, k, pos + 1));
            lemma_lookup_at(n2, k, pos + 1);
            lemma_lookup_out(r, k0 as int, rhi, (h - 1) as nat, k);
        } else {
            assert(splits_at(s2, k, pos));
            lemma_lookup_at(n2, k, pos);
        }
    }
}

/// Separator `pos` replaced by the smallest item under child `pos + 1`,
/// which that child no longer holds: a B-tree without the old separator's
/// key.
pub proof fn lemma_replace_with_succ(n: Node, n2: Node, pos: int, p: Item, c2: Node, lo: int, hi: int, h: nat)
    requires
        n.wf_at(lo, hi, h),
        h > 0,
        0 <= pos < n.items@.len(),
        n2.items@ == n.items@.update(pos, p),
        n2.num_items == n.num_items,
        n2.children@ == n.children@.update(pos + 1, Box::new(c2)),
        n.items@[pos].key < p.key < n.child_hi(pos + 1, hi),
        n.children@[pos + 1].lookup(p.key) == Some(p.val@),
        forall|k: i32| k < p.key ==> (#[trigger] n.children@[pos + 1].lookup(k)) is None,
        c2.wf_at(n.items@[pos].key as int, n.child_hi(pos + 1, hi), (h - 1) as nat),
        c2.items@.len() >= MIN_ITEMS,
        removes(c2, *n.children@[pos + 1], p.key),
    ensures
        n2.wf_at(lo, hi, h),
        removes(n2, n, n.items@[pos].key),
{
    let s = n.items@;
    let s2 = n2.items@;
    let k0 = s[pos].key;
    let chi = n.child_hi(pos + 1, hi);
    assert forall|k: i32| k <= p.key implies (#[trigger] c2.lookup(k)) is None by {}
    lemma_tighten_lo(c2, k0 as int, chi, p.key as int, (h - 1) as nat);
    let l = *n.children@[pos];
    let llo = n.child_lo(pos, lo);
    assert(l.wf_at(llo, k0 as int, (h - 1) as nat));
    lemma_widen(l, llo, k0 as int, llo, p.key as int, (h - 1) as nat);
    assert(sorted_between(s2, lo, hi)) by {
        assert forall|x: int, y: int| 0 <= x < y < s2.len() implies s2[x].key < s2[y].key by {
            if x == pos {
                assert(chi <= s[y].key);
            } else if y == pos {
                assert(s[x].key < s[y].key);
            }
        }
    }
    assert forall|j: int| #![trigger n2.children@[j]] 0 <= j < n2.children@.len() implies {
        &&& n2.children@[j].items.len() >= MIN_ITEMS
        &&& n2.children@[j].wf_at(n2.child_lo(j, lo), n2.child_hi(j, hi), (h - 1) as nat)
    } by {
        if j != pos + 1 {
            assert(n2.children@[j] == n.children@[j]);
        }
    }
    assert forall|k: i32| #[trigger] n2.lookup(k) == (if k == k0 {
        None
    } else {
        n.lookup(k)
    }) by {
        lemma_lookup_sorted(n, k);
        let q = count_less(s, k) as int;
        lemma_lookup_at(n, k, q);
        if q < pos {
            assert(splits_at(s2, k, q));
            lemma_lookup_at(n2, k, q);
        } else if q > pos + 1 {
            assert(s[pos + 1].key < k);
            assert(splits_at(s2, k, q));
            lemma_lookup_at(n2, k, q);
        } else if q == pos {
            assert(splits_at(s2, k, pos));
            lemma_lookup_at(n2, k, pos);
            if k == k0 {
                lemma_lookup_out(l, llo, k0 as int, (h - 1) as nat, k);
            }
        } else if k < p.key {
            assert(splits_at(s2, k, pos));
            lemma_lookup_at(n2, k, pos);
            lemma_lookup_out(l, llo, k0 as int, (h - 1) as nat, k);
        } else if k == p.key {
            assert(splits_at(s2, k, pos));
            lemma_lookup_at(n2, k, pos);
        } else {
            assert(splits_at(s2, k, pos + 1));
            lemma_lookup_at(n2, k, pos + 1);
        }
    }
}

impl Node {
    /// A copy of the largest item of the subtree: its rightmost leaf's last.
    fn last_item(&self, Ghost(lo): Ghost<int>, Ghost(hi): Ghost<int>, Ghost(h): Ghost<nat>) -> (r: Item)
        requires
            self.wf_at(lo, hi, h),
            self.items@.len() >= 1,
        ensures
            self.lookup(r.key) == Some(r.val@),
            forall|k: i32| k > r.key ==> (#[trigger] self.lookup(k)) is None,
            lo < r.key < hi,
        decreases h,
    {
        let len = self.items.len();
        if self.children.len() == 0 {
            let r = self.items[len - 1].duplicate();
            proof {
                assert(splits_at(self.items@, r.key, len - 1));
                lemma_lookup_at(*self, r.key, len - 1);
                assert forall|k: i32| k > r.key implies (#[trigger] self.lookup(k)) is None by {
                    assert(splits_at(self.items@, k, len as int));
                    lemma_lookup_at(*self, k, len as int);
                }
            }
            r
        } else {
            let ghost clo = self.child_lo(len as int, lo);
            proof {
                assert(self.children@[len as int].wf_at(clo, hi, (h - 1) as nat));
            }
            let r = self.children[len].last_item(Ghost(clo), Ghost(hi), Ghost((h - 1) as nat));
            proof {
                assert(splits_at(self.items@, r.key, len as int));
                lemma_lookup_at(*self, r.key, len as int);
                assert forall|k: i32| k > r.key implies (#[trigger] self.lookup(k)) is None by {
                    assert(splits_at(self.items@, k, len as int));
                    lemma_lookup_at(*self, k, len as int);
                }
            }
            r
        }
    }

    /// A copy of the smallest item of the subtree: its leftmost leaf's first.
    fn first_item(&self, Ghost(lo): Ghost<int>, Ghost(hi): Ghost<int>, Ghost(h): Ghost<nat>) -> (r: Item)
        requires
            self.wf_at(lo, hi, h),
            self.items@.len() >= 1,
        ensures
            self.lookup(r.key) == Some(r.val@),
            forall|k: i32| k < r.key ==> (#[trigger] self.lookup(k)) is None,
            lo < r.key < hi,
        decreases h,
    {
        if self.children.len() == 0 {
            let r = self.items[0].duplicate();
            proof {
                assert(splits_at(self.items@, r.key, 0));
                lemma_lookup_at(*self, r.key, 0);
                assert forall|k: i32| k < r.key implies (#[trigger] self.lookup(k)) is None by {
                    assert(splits_at(self.items@, k, 0));
                    lemma_lookup_at(*self, k, 0);
                }
            }
            r
        } else {
            let ghost chi = self.child_hi(0, hi);
            proof {
                assert(self.children@[0].wf_at(lo, chi, (h - 1) as nat));
            }
            let r = self.children[0].first_item(Ghost(lo), Ghost(chi), Ghost((h - 1) as nat));
            proof {
                assert(splits_at(self.items@, r.key, 0));
                lemma_lookup_at(*self, r.key, 0);
                assert forall|k: i32| k < r.key implies (#[trigger] self.lookup(k)) is None by {
                    assert(splits_at(self.items@, k, 0));
                    lemma_lookup_at(*self, k, 0);
                }
            }
            r
        }
    }

    /// A copy of the in-order predecessor of separator `pos`: the largest
    /// item under child `pos`.
    pub fn get_predecessor(&self, pos: usize, Ghost(lo): Ghost<int>, Ghost(hi): Ghost<int>, Ghost(h): Ghost<nat>) -> (r: Item)
        requires
            self.wf_at(lo, hi, h),
            h > 0,
            pos < self.items@.len(),
        ensures
            self.children@[pos as int].lookup(r.key) == Some(r.val@),
            forall|k: i32| k > r.key ==> (#[trigger] self.children@[pos as int].lookup(k)) is None,
            self.child_lo(pos as int, lo) < r.key < self.items@[pos as int].key,
    {
        proof {
            assert(self.children@[pos as int].wf_at(self.child_lo(pos as int, lo), self.child_hi(pos as int, hi), (h - 1) as nat));
        }
        self.children[pos].last_item(
            Ghost(self.child_lo(pos as int, lo)),
            Ghost(self.child_hi(pos as int, hi)),
            Ghost((h - 1) as nat),
        )
    }

    /// A copy of the in-order successor of separator `pos`: the smallest
    /// item under child `pos + 1`.
    pub fn get_successor(&self, pos: usize, Ghost(lo): Ghost<int>, Ghost(hi): Ghost<int>, Ghost(h): Ghost<nat>) -> (r: Item)
        requires
            self.wf_at(lo, hi, h),
            h > 0,
            pos < self.items@.len(),
        ensures
            self.children@[pos + 1].lookup(r.key) == Some(r.val@),
            forall|k: i32| k < r.key ==> (#[trigger] self.children@[pos + 1].lookup(k)) is None,
            self.items@[pos as int].key < r.key < self.child_hi(pos + 1, hi),
    {
        proof {
            assert(self.children@[pos + 1].wf_at(self.child_lo(pos + 1, lo), self.child_hi(pos + 1, hi), (h - 1) as nat));
        }
        self.children[pos + 1].first_item(
            Ghost(self.child_lo(pos + 1, lo)),
            Ghost(self.child_hi(pos + 1, hi)),
            Ghost((h - 1) as nat),
        )
    }
}

} // verus!
