use crate::pager::Pager;
use crate::{BtreeError, Item, MAX_ITEMS, MIN_ITEMS};
use vstd::prelude::*;

verus! {

/// Number of items of `s` whose key is below `k`.
pub open spec fn count_less(s: Seq<Item>, k: i32) -> nat
    decreases s.len(),
{
    if s.len() == 0 {
        0
    } else {
        count_less(s.drop_last(), k) + if s.last().key < k {
            1nat
        } else {
            0nat
        }
    }
}

/// Keys strictly increasing.
pub open spec fn keys_sorted(s: Seq<Item>) -> bool {
    forall|i: int, j: int| 0 <= i < j < s.len() ==> s[i].key < s[j].key
}

/// Keys strictly increasing, and all strictly between `lo` and `hi`.
pub open spec fn sorted_between(s: Seq<Item>, lo: int, hi: int) -> bool {
    &&& keys_sorted(s)
    &&& forall|i: int| 0 <= i < s.len() ==> lo < #[trigger] s[i].key < hi
}

/// `p` is where `k` falls among the keys of `s`.
pub open spec fn splits_at(s: Seq<Item>, k: i32, p: int) -> bool {
    &&& 0 <= p <= s.len()
    &&& forall|i: int| 0 <= i < p ==> #[trigger] s[i].key < k
    &&& forall|i: int| p <= i < s.len() ==> #[trigger] s[i].key >= k
}

/// Any place where `k` falls is the count of smaller keys.
pub proof fn lemma_count_less_at(s: Seq<Item>, k: i32, p: int)
    requires
        splits_at(s, k, p),
    ensures
        count_less(s, k) == p,
    decreases s.len(),
{
    if s.len() > 0 {
        let t = s.drop_last();
        if p == s.len() {
            assert(splits_at(t, k, p - 1));
            lemma_count_less_at(t, k, p - 1);
        } else {
            assert(splits_at(t, k, p));
            lemma_count_less_at(t, k, p);
        }
    }
}

/// In a sorted sequence the count of smaller keys is where `k` falls.
pub proof fn lemma_count_less_sorted(s: Seq<Item>, k: i32)
    requires
        keys_sorted(s),
    ensures
        splits_at(s, k, count_less(s, k) as int),
    decreases s.len(),
{
    if s.len() > 0 {
        let t = s.drop_last();
        lemma_count_less_sorted(t, k);
        let c = count_less(t, k) as int;
        if s.last().key < k {
            assert forall|i: int| 0 <= i < s.len() implies #[trigger] s[i].key < k by {
                if i < s.len() - 1 {
                    assert(s[i] == t[i]);
                    assert(s[i].key < s[s.len() - 1].key);
                }
            }
        } else {
            assert forall|i: int| c <= i < s.len() implies #[trigger] s[i].key >= k by {
                if i < s.len() - 1 {
                    assert(s[i] == t[i]);
                }
            }
            assert forall|i: int| 0 <= i < c implies #[trigger] s[i].key < k by {
                assert(s[i] == t[i]);
            }
        }
    }
}

/// Every node of the subtree has a page id in `1..=num_pages`.
pub open spec fn ids_in(n: Node, num_pages: u32) -> bool
    decreases n,
{
    &&& 1 <= n.id <= num_pages
    &&& forall|i: int|
        #![trigger n.children@[i]]
        0 <= i < n.children@.len() ==> ids_in(*n.children@[i], num_pages)
}

/// Ids within a page count are within any larger one.
pub proof fn lemma_ids_in_mono(n: Node, a: u32, b: u32)
    requires
        ids_in(n, a),
        a <= b,
    ensures
        ids_in(n, b),
    decreases n,
{
    assert forall|i: int| #![trigger n.children@[i]] 0 <= i < n.children@.len() implies ids_in(*n.children@[i], b) by {
        lemma_ids_in_mono(*n.children@[i], a, b);
    }
}

/// The halves of a split node, the right one on the new page, have their
/// ids within the new page count.
pub proof fn lemma_halves_ids(c: Node, left: Node, right: Node, np0: u32, np1: u32)
    requires
        ids_in(c, np0),
        np0 <= np1,
        right.id == np1,
        left.id == c.id,
        forall|i: int| 0 <= i < left.children@.len() ==> #[trigger] left.children@[i] == c.children@[i],
        forall|i: int| 0 <= i < right.children@.len() ==> #[trigger] right.children@[i] == c.children@[i + MIN_ITEMS + 1],
        left.children@.len() <= c.children@.len(),
        right.children@.len() > 0 ==> right.children@.len() + MIN_ITEMS + 1 == c.children@.len(),
    ensures
        ids_in(left, np1),
        ids_in(right, np1),
{
    assert forall|i: int| #![trigger left.children@[i]] 0 <= i < left.children@.len() implies ids_in(*left.children@[i], np1) by {
        lemma_ids_in_mono(*c.children@[i], np0, np1);
    }
    assert forall|i: int| #![trigger right.children@[i]] 0 <= i < right.children@.len() implies ids_in(*right.children@[i], np1) by {
        lemma_ids_in_mono(*c.children@[i + MIN_ITEMS + 1], np0, np1);
    }
}

/// After a split of child `p`, whose right half takes the new page, the
/// node's ids lie within the new page count.
pub proof fn lemma_split_ids(n: Node, n2: Node, p: int, left: Node, right: Node, np0: u32, np1: u32)
    requires
        ids_in(n, np0),
        np0 <= np1,
        right.id == np1,
        0 <= p < n.children@.len(),
        n2.id == n.id,
        n2.children@ == n.children@.update(p, Box::new(left)).insert(p + 1, Box::new(right)),
        left.id == n.children@[p].id,
        forall|i: int| 0 <= i < left.children@.len() ==> #[trigger] left.children@[i] == n.children@[p].children@[i],
        forall|i: int| 0 <= i < right.children@.len() ==> #[trigger] right.children@[i] == n.children@[p].children@[i + MIN_ITEMS + 1],
        left.children@.len() <= n.children@[p].children@.len(),
        left.children@.len() + right.children@.len() <= n.children@[p].children@.len(),
        right.children@.len() > 0 ==> right.children@.len() + MIN_ITEMS + 1 == n.children@[p].children@.len(),
    ensures
        ids_in(n2, np1),
{
    let c = *n.children@[p];
    assert(ids_in(c, np0));
    lemma_halves_ids(c, left, right, np0, np1);
    assert forall|j: int| #![trigger n2.children@[j]] 0 <= j < n2.children@.len() implies ids_in(*n2.children@[j], np1) by {
        if j < p {
            assert(n2.children@[j] == n.children@[j]);
            lemma_ids_in_mono(*n.children@[j], np0, np1);
        } else if j > p + 1 {
            assert(n2.children@[j] == n.children@[j - 1]);
            lemma_ids_in_mono(*n.children@[j - 1], np0, np1);
        }
    }
}

/// Replacing child `p` by a subtree whose ids lie within the new page
/// count keeps the node's ids within it.
pub proof fn lemma_replaced_ids(n: Node, n2: Node, p: int, np0: u32, np1: u32)
    requires
        ids_in(n, np0),
        np0 <= np1,
        0 <= p < n.children@.len(),
        n2.id == n.id,
        n2.children@.len() == n.children@.len(),
        forall|i: int| 0 <= i < n.children@.len() && i != p ==> n2.children@[i] == n.children@[i],
        ids_in(*n2.children@[p], np1),
    ensures
        ids_in(n2, np1),
{
    assert forall|j: int| #![trigger n2.children@[j]] 0 <= j < n2.children@.len() implies ids_in(*n2.children@[j], np1) by {
        if j != p {
            assert(n2.children@[j] == n.children@[j]);
            lemma_ids_in_mono(*n.children@[j], np0, np1);
        }
    }
}

/// Some node of the subtree has page id `x`.
pub open spec fn has_id(n: Node, x: u32) -> bool
    decreases n,
{
    n.id == x || exists|i: int|
        #![trigger n.children@[i]]
        0 <= i < n.children@.len() && has_id(*n.children@[i], x)
}

/// No two nodes of the subtree share a page id.
pub open spec fn ids_unique(n: Node) -> bool
    decreases n,
{
    &&& forall|i: int|
        #![trigger n.children@[i]]
        0 <= i < n.children@.len() ==> !has_id(*n.children@[i], n.id) && ids_unique(*n.children@[i])
    &&& forall|i: int, j: int, x: u32|
        0 <= i < n.children@.len() && 0 <= j < n.children@.len() && i != j && #[trigger] has_id(
            *n.children@[i],
            x,
        ) ==> !#[trigger] has_id(*n.children@[j], x)
}

/// The ids of a subtree whose ids lie in `1..=num_pages` lie there.
pub proof fn lemma_has_id_in(n: Node, np: u32, x: u32)
    requires
        ids_in(n, np),
        has_id(n, x),
    ensures
        1 <= x <= np,
    decreases n,
{
    if n.id != x {
        let i = choose|i: int| #![trigger n.children@[i]] 0 <= i < n.children@.len() && has_id(*n.children@[i], x);
        lemma_has_id_in(*n.children@[i], np, x);
    }
}

/// The halves of a split node, the right one on a page above all of its
/// ids, are free of duplicates, hold only its ids or the new page's, and
/// share none.
pub proof fn lemma_halves_unique(c: Node, left: Node, right: Node, np0: u32)
    requires
        ids_in(c, np0),
        ids_unique(c),
        right.id > np0,
        left.id == c.id,
        forall|i: int| 0 <= i < left.children@.len() ==> #[trigger] left.children@[i] == c.children@[i],
        forall|i: int| 0 <= i < right.children@.len() ==> #[trigger] right.children@[i] == c.children@[i + MIN_ITEMS + 1],
        left.children@.len() <= MIN_ITEMS + 1,
        left.children@.len() <= c.children@.len(),
        right.children@.len() > 0 ==> right.children@.len() + MIN_ITEMS + 1 == c.children@.len(),
    ensures
        ids_unique(left),
        ids_unique(right),
        forall|x: u32| #[trigger] has_id(left, x) ==> has_id(c, x),
        forall|x: u32| #[trigger] has_id(right, x) ==> has_id(c, x) || x == right.id,
        forall|x: u32| !(#[trigger] has_id(left, x) && #[trigger] has_id(right, x)),
        !has_id(left, right.id),
{
    assert forall|x: u32| #[trigger] has_id(left, x) implies has_id(c, x) by {
        if left.id != x {
            let i = choose|i: int| #![trigger left.children@[i]] 0 <= i < left.children@.len() && has_id(*left.children@[i], x);
            assert(c.children@[i] == left.children@[i]);
        }
    }
    assert forall|x: u32| #[trigger] has_id(right, x) implies has_id(c, x) || x == right.id by {
        if right.id != x {
            let i = choose|i: int| #![trigger right.children@[i]] 0 <= i < right.children@.len() && has_id(*right.children@[i], x);
            assert(c.children@[i + MIN_ITEMS + 1] == right.children@[i]);
        }
    }
    assert(ids_unique(left)) by {
        assert forall|i: int| #![trigger left.children@[i]] 0 <= i < left.children@.len() implies !has_id(*left.children@[i], left.id) && ids_unique(*left.children@[i]) by {
            assert(c.children@[i] == left.children@[i]);
        }
        assert forall|i: int, j: int, x: u32| 0 <= i < left.children@.len() && 0 <= j < left.children@.len() && i != j && #[trigger] has_id(*left.children@[i], x) implies !#[trigger] has_id(*left.children@[j], x) by {
            assert(c.children@[i] == left.children@[i]);
            assert(c.children@[j] == left.children@[j]);
        }
    }
    assert(ids_unique(right)) by {
        assert forall|i: int| #![trigger right.children@[i]] 0 <= i < right.children@.len() implies !has_id(*right.children@[i], right.id) && ids_unique(*right.children@[i]) by {
            assert(c.children@[i + MIN_ITEMS + 1] == right.children@[i]);
            assert(ids_in(*c.children@[i + MIN_ITEMS + 1], np0));
            if has_id(*right.children@[i], right.id) {
                lemma_has_id_in(*right.children@[i], np0, right.id);
            }
        }
        assert forall|i: int, j: int, x: u32| 0 <= i < right.children@.len() && 0 <= j < right.children@.len() && i != j && #[trigger] has_id(*right.children@[i], x) implies !#[trigger] has_id(*right.children@[j], x) by {
            assert(c.children@[i + MIN_ITEMS + 1] == right.children@[i]);
            assert(c.children@[j + MIN_ITEMS + 1] == right.children@[j]);
        }
    }
    assert(!has_id(left, right.id)) by {
        if has_id(left, right.id) {
            lemma_has_id_in(c, np0, right.id);
        }
    }
    assert forall|x: u32| has_id(left, x) && has_id(right, x) implies false by {
        if x == right.id {
        } else if x == c.id {
            let j = choose|j: int| #![trigger right.children@[j]] 0 <= j < right.children@.len() && has_id(*right.children@[j], x);
            assert(c.children@[j + MIN_ITEMS + 1] == right.children@[j]);
        } else {
            let i = choose|i: int| #![trigger left.children@[i]] 0 <= i < left.children@.len() && has_id(*left.children@[i], x);
            let j = choose|j: int| #![trigger right.children@[j]] 0 <= j < right.children@.len() && has_id(*right.children@[j], x);
            assert(c.children@[i] == left.children@[i]);
            assert(c.children@[j + MIN_ITEMS + 1] == right.children@[j]);
            assert(has_id(*c.children@[i], x));
            assert(has_id(*c.children@[j + MIN_ITEMS + 1], x));
        }
    }
}

/// After a split of child `p`, the right half on a page above every id of
/// the node, no two nodes share an id, and the node's ids are its old ones
/// and the new page's.
pub proof fn lemma_split_unique(n: Node, n2: Node, p: int, left: Node, right: Node, np0: u32)
    requires
        ids_in(n, np0),
        ids_unique(n),
        right.id > np0,
        0 <= p < n.children@.len(),
        n2.id == n.id,
        n2.children@ == n.children@.update(p, Box::new(left)).insert(p + 1, Box::new(right)),
        left.id == n.children@[p].id,
        forall|i: int| 0 <= i < left.children@.len() ==> #[trigger] left.children@[i] == n.children@[p].children@[i],
        forall|i: int| 0 <= i < right.children@.len() ==> #[trigger] right.children@[i] == n.children@[p].children@[i + MIN_ITEMS + 1],
        left.children@.len() <= MIN_ITEMS + 1,
        left.children@.len() <= n.children@[p].children@.len(),
        right.children@.len() > 0 ==> right.children@.len() + MIN_ITEMS + 1 == n.children@[p].children@.len(),
    ensures
        ids_unique(left),
        ids_unique(right),
        ids_unique(n2),
        forall|x: u32| #[trigger] has_id(left, x) ==> has_id(*n.children@[p], x),
        forall|x: u32| #[trigger] has_id(right, x) ==> has_id(*n.children@[p], x) || x == right.id,
        forall|x: u32| #[trigger] has_id(n2, x) ==> has_id(n, x) || x == right.id,
{
    let c = *n.children@[p];
    assert(ids_unique(c) && ids_in(c, np0) && !has_id(c, n.id));
    lemma_halves_unique(c, left, right, np0);
    assert forall|k: int, x: u32| 0 <= k < n.children@.len() && k != p && #[trigger] has_id(*n.children@[k], x) implies !has_id(c, x) && x != right.id by {
        assert(ids_in(*n.children@[k], np0));
        lemma_has_id_in(*n.children@[k], np0, x);
    }
    assert forall|x: u32| #[trigger] has_id(n2, x) implies has_id(n, x) || x == right.id by {
        if n2.id != x {
            let k = choose|k: int| #![trigger n2.children@[k]] 0 <= k < n2.children@.len() && has_id(*n2.children@[k], x);
            if k < p {
                assert(n2.children@[k] == n.children@[k]);
            } else if k > p + 1 {
                assert(n2.children@[k] == n.children@[k - 1]);
            } else if k == p {
                assert(n2.children@[k] == left);
            } else {
                assert(n2.children@[k] == right);
            }
        }
    }
    assert forall|k: int| #![trigger n2.children@[k]] 0 <= k < n2.children@.len() implies !has_id(*n2.children@[k], n2.id) && ids_unique(*n2.children@[k]) by {
        if k < p {
            assert(n2.children@[k] == n.children@[k]);
        } else if k > p + 1 {
            assert(n2.children@[k] == n.children@[k - 1]);
        } else if k == p {
            assert(n2.children@[k] == left);
        } else {
            assert(n2.children@[k] == right);
            assert(n.id <= np0);
        }
    }
    assert forall|i: int, j: int, x: u32| 0 <= i < n2.children@.len() && 0 <= j < n2.children@.len() && i != j && #[trigger] has_id(*n2.children@[i], x) implies !#[trigger] has_id(*n2.children@[j], x) by {
        let oi = if i < p { i } else if i > p + 1 { i - 1 } else { p };
        let oj = if j < p { j } else if j > p + 1 { j - 1 } else { p };
        if i != p && i != p + 1 {
            assert(n2.children@[i] == n.children@[oi]);
        }
        if j != p && j != p + 1 {
            assert(n2.children@[j] == n.children@[oj]);
        }
        if has_id(*n2.children@[j], x) {
            if (i == p || i == p + 1) && (j == p || j == p + 1) {
                assert(n2.children@[p] == left);
                assert(n2.children@[p + 1] == right);
            } else if i == p || i == p + 1 {
                assert(n2.children@[p] == left);
                assert(n2.children@[p + 1] == right);
                assert(has_id(*n.children@[oj], x));
            } else if j == p || j == p + 1 {
                assert(n2.children@[p] == left);
                assert(n2.children@[p + 1] == right);
                assert(has_id(*n.children@[oi], x));
            } else {
                assert(has_id(*n.children@[oi], x));
                assert(has_id(*n.children@[oj], x));
            }
        }
    }
}

/// Replacing child `p` by a subtree without duplicate ids, whose ids are
/// the old child's or above every id of the node, keeps the node free of
/// duplicates.
pub proof fn lemma_replaced_unique(n: Node, n2: Node, p: int, np0: u32)
    requires
        ids_in(n, np0),
        ids_unique(n),
        0 <= p < n.children@.len(),
        n2.id == n.id,
        n2.children@.len() == n.children@.len(),
        forall|i: int| 0 <= i < n.children@.len() && i != p ==> n2.children@[i] == n.children@[i],
        ids_unique(*n2.children@[p]),
        forall|x: u32| #[trigger] has_id(*n2.children@[p], x) ==> has_id(*n.children@[p], x) || x > np0,
    ensures
        ids_unique(n2),
        forall|x: u32| #[trigger] has_id(n2, x) ==> has_id(n, x) || x > np0,
{
    assert forall|k: int, x: u32| 0 <= k < n.children@.len() && #[trigger] has_id(*n.children@[k], x) implies x <= np0 by {
        assert(ids_in(*n.children@[k], np0));
        lemma_has_id_in(*n.children@[k], np0, x);
    }
    assert forall|x: u32| #[trigger] has_id(n2, x) implies has_id(n, x) || x > np0 by {
        if n2.id != x {
            let k = choose|k: int| #![trigger n2.children@[k]] 0 <= k < n2.children@.len() && has_id(*n2.children@[k], x);
            if k != p {
                assert(n2.children@[k] == n.children@[k]);
            }
        }
    }
    assert forall|k: int| #![trigger n2.children@[k]] 0 <= k < n2.children@.len() implies !has_id(*n2.children@[k], n2.id) && ids_unique(*n2.children@[k]) by {
        if k != p {
            assert(n2.children@[k] == n.children@[k]);
        }
    }
    assert forall|i: int, j: int, x: u32| 0 <= i < n2.children@.len() && 0 <= j < n2.children@.len() && i != j && #[trigger] has_id(*n2.children@[i], x) implies !#[trigger] has_id(*n2.children@[j], x) by {
        if i != p {
            assert(n2.children@[i] == n.children@[i]);
        }
        if j != p {
            assert(n2.children@[j] == n.children@[j]);
        }
        if has_id(*n2.children@[j], x) {
            if i == p {
                assert(has_id(*n.children@[j], x));
            } else if j == p {
                assert(has_id(*n.children@[i], x));
            }
        }
    }
}

/// Replacing children `a` and `a + 1` by two subtrees free of duplicates,
/// sharing no id and holding only ids of the two they replace, keeps the
/// node free of duplicates.
pub proof fn lemma_pair_replaced_unique(n: Node, n2: Node, a: int, x: Node, y: Node)
    requires
        ids_unique(n),
        0 <= a && a + 1 < n.children@.len(),
        n2.id == n.id,
        n2.children@ == n.children@.update(a, Box::new(x)).update(a + 1, Box::new(y)),
        ids_unique(x),
        ids_unique(y),
        forall|z: u32| !(#[trigger] has_id(x, z) && #[trigger] has_id(y, z)),
        forall|z: u32| #[trigger] has_id(x, z) ==> has_id(*n.children@[a], z) || has_id(*n.children@[a + 1], z),
        forall|z: u32| #[trigger] has_id(y, z) ==> has_id(*n.children@[a], z) || has_id(*n.children@[a + 1], z),
    ensures
        ids_unique(n2),
        forall|z: u32| #[trigger] has_id(n2, z) ==> has_id(n, z),
{
    assert forall|z: u32| #[trigger] has_id(n2, z) implies has_id(n, z) by {
        if n2.id != z {
            let k = choose|k: int| #![trigger n2.children@[k]] 0 <= k < n2.children@.len() && has_id(*n2.children@[k], z);
            if k != a && k != a + 1 {
                assert(n2.children@[k] == n.children@[k]);
            } else {
                assert(has_id(*n.children@[a], z) || has_id(*n.children@[a + 1], z));
            }
        }
    }
    assert forall|k: int| #![trigger n2.children@[k]] 0 <= k < n2.children@.len() implies !has_id(*n2.children@[k], n2.id) && ids_unique(*n2.children@[k]) by {
        if k != a && k != a + 1 {
            assert(n2.children@[k] == n.children@[k]);
        }
    }
    assert forall|i: int, j: int, z: u32| 0 <= i < n2.children@.len() && 0 <= j < n2.children@.len() && i != j && #[trigger] has_id(*n2.children@[i], z) implies !#[trigger] has_id(*n2.children@[j], z) by {
        if i != a && i != a + 1 {
            assert(n2.children@[i] == n.children@[i]);
        }
        if j != a && j != a + 1 {
            assert(n2.children@[j] == n.children@[j]);
        }
        if has_id(*n2.children@[j], z) {
            if (i == a || i == a + 1) && (j == a || j == a + 1) {
            } else if i == a || i == a + 1 {
                assert(has_id(*n.children@[a], z) || has_id(*n.children@[a + 1], z));
            } else if j == a || j == a + 1 {
                assert(has_id(*n.children@[a], z) || has_id(*n.children@[a + 1], z));
            }
        }
    }
}

/// Replacing children `a` and `a + 1` by one subtree free of duplicates
/// and holding only their ids keeps the node free of duplicates.
pub proof fn lemma_pair_merged_unique(n: Node, n2: Node, a: int, m: Node)
    requires
        ids_unique(n),
        0 <= a && a + 1 < n.children@.len(),
        n2.id == n.id,
        n2.children@ == n.children@.remove(a + 1).update(a, Box::new(m)),
        ids_unique(m),
        forall|z: u32| #[trigger] has_id(m, z) ==> has_id(*n.children@[a], z) || has_id(*n.children@[a + 1], z),
    ensures
        ids_unique(n2),
        forall|z: u32| #[trigger] has_id(n2, z) ==> has_id(n, z),
{
    assert forall|z: u32| #[trigger] has_id(n2, z) implies has_id(n, z) by {
        if n2.id != z {
            let k = choose|k: int| #![trigger n2.children@[k]] 0 <= k < n2.children@.len() && has_id(*n2.children@[k], z);
            if k < a {
                assert(n2.children@[k] == n.children@[k]);
            } else if k > a {
                assert(n2.children@[k] == n.children@[k + 1]);
            } else {
                assert(has_id(*n.children@[a], z) || has_id(*n.children@[a + 1], z));
            }
        }
    }
    assert forall|k: int| #![trigger n2.children@[k]] 0 <= k < n2.children@.len() implies !has_id(*n2.children@[k], n2.id) && ids_unique(*n2.children@[k]) by {
        if k < a {
            assert(n2.children@[k] == n.children@[k]);
        } else if k > a {
            assert(n2.children@[k] == n.children@[k + 1]);
        }
    }
    assert forall|i: int, j: int, z: u32| 0 <= i < n2.children@.len() && 0 <= j < n2.children@.len() && i != j && #[trigger] has_id(*n2.children@[i], z) implies !#[trigger] has_id(*n2.children@[j], z) by {
        let oi = if i < a { i } else { i + 1 };
        let oj = if j < a { j } else { j + 1 };
        if i != a {
            assert(n2.children@[i] == n.children@[oi]);
        }
        if j != a {
            assert(n2.children@[j] == n.children@[oj]);
        }
        if has_id(*n2.children@[j], z) {
            if i == a {
                assert(has_id(*n.children@[a], z) || has_id(*n.children@[a + 1], z));
                assert(has_id(*n.children@[oj], z));
            } else if j == a {
                assert(has_id(*n.children@[a], z) || has_id(*n.children@[a + 1], z));
                assert(has_id(*n.children@[oi], z));
            } else {
                assert(has_id(*n.children@[oi], z));
                assert(has_id(*n.children@[oj], z));
            }
        }
    }
}

/// Replacing child `p` by a subtree free of duplicates and holding only
/// ids of the old child keeps the node free of duplicates.
pub proof fn lemma_replaced_unique_within(n: Node, n2: Node, p: int)
    requires
        ids_unique(n),
        0 <= p < n.children@.len(),
        n2.id == n.id,
        n2.children@.len() == n.children@.len(),
        forall|i: int| 0 <= i < n.children@.len() && i != p ==> n2.children@[i] == n.children@[i],
        ids_unique(*n2.children@[p]),
        forall|x: u32| #[trigger] has_id(*n2.children@[p], x) ==> has_id(*n.children@[p], x),
    ensures
        ids_unique(n2),
        forall|x: u32| #[trigger] has_id(n2, x) ==> has_id(n, x),
{
    assert forall|x: u32| #[trigger] has_id(n2, x) implies has_id(n, x) by {
        if n2.id != x {
            let k = choose|k: int| #![trigger n2.children@[k]] 0 <= k < n2.children@.len() && has_id(*n2.children@[k], x);
            if k != p {
                assert(n2.children@[k] == n.children@[k]);
            }
        }
    }
    assert forall|k: int| #![trigger n2.children@[k]] 0 <= k < n2.children@.len() implies !has_id(*n2.children@[k], n2.id) && ids_unique(*n2.children@[k]) by {
        if k != p {
            assert(n2.children@[k] == n.children@[k]);
        }
    }
    assert forall|i: int, j: int, x: u32| 0 <= i < n2.children@.len() && 0 <= j < n2.children@.len() && i != j && #[trigger] has_id(*n2.children@[i], x) implies !#[trigger] has_id(*n2.children@[j], x) by {
        if i != p {
            assert(n2.children@[i] == n.children@[i]);
        }
        if j != p {
            assert(n2.children@[j] == n.children@[j]);
        }
        if has_id(*n2.children@[j], x) {
            if i == p {
                assert(has_id(*n.children@[j], x));
            } else if j == p {
                assert(has_id(*n.children@[i], x));
            }
        }
    }
}

/// First index from `pos` on whose key is not below `key`, or the length.
pub open spec fn scan_from(s: Seq<Item>, pos: int, key: i32) -> int
    decreases s.len() - pos,
{
    if pos >= s.len() || s[pos].key >= key {
        pos
    } else {
        scan_from(s, pos + 1, key)
    }
}

/// `lookup` read at a place where `k` falls.
pub proof fn lemma_lookup_at(n: Node, k: i32, q: int)
    requires
        keys_sorted(n.items@),
        splits_at(n.items@, k, q),
    ensures
        n.lookup(k) == (if q < n.items@.len() && n.items@[q].key == k {
            Some(n.items@[q].val@)
        } else if q < n.children@.len() {
            n.children@[q].lookup(k)
        } else {
            None
        }),
{
    lemma_count_less_at(n.items@, k, q);
}

/// Where `k` falls in a sorted sequence, with `lookup` read there.
pub proof fn lemma_lookup_sorted(n: Node, k: i32)
    requires
        keys_sorted(n.items@),
    ensures
        splits_at(n.items@, k, count_less(n.items@, k) as int),
{
    lemma_count_less_sorted(n.items@, k);
}

/// The two halves of a full node split around its median are B-trees
/// bounded by the median, and together they answer every lookup as the
/// full node did.
pub proof fn lemma_split_halves(c: Node, left: Node, right: Node, m: Item, lo: int, hi: int, h: nat)
    requires
        c.wf_at(lo, hi, h),
        c.items@.len() == MAX_ITEMS,
        m == c.items@[MIN_ITEMS as int],
        left.items@ == c.items@.subrange(0, MIN_ITEMS as int),
        right.items@ == c.items@.subrange(MIN_ITEMS + 1, MAX_ITEMS as int),
        left.num_items == MIN_ITEMS,
        right.num_items == MAX_ITEMS - MIN_ITEMS - 1,
        h == 0 ==> left.children@.len() == 0 && right.children@.len() == 0,
        h > 0 ==> left.children@ == c.children@.subrange(0, MIN_ITEMS + 1) && right.children@
            == c.children@.subrange(MIN_ITEMS + 1, MAX_ITEMS + 1),
    ensures
        lo < m.key < hi,
        left.wf_at(lo, m.key as int, h),
        right.wf_at(m.key as int, hi, h),
        forall|k: i32| k < m.key ==> #[trigger] left.lookup(k) == c.lookup(k),
        forall|k: i32| k > m.key ==> #[trigger] right.lookup(k) == c.lookup(k),
        c.lookup(m.key) == Some(m.val@),
{
    let mi = MIN_ITEMS as int;
    assert(sorted_between(left.items@, lo, m.key as int));
    assert(sorted_between(right.items@, m.key as int, hi));
    if h > 0 {
        assert forall|i: int| 0 <= i < left.children@.len() implies {
            &&& left.children@[i].items.len() >= MIN_ITEMS
            &&& #[trigger] left.children@[i].wf_at(
                left.child_lo(i, lo),
                left.child_hi(i, m.key as int),
                (h - 1) as nat,
            )
        } by {
            assert(left.children@[i] == c.children@[i]);
            assert(c.children@[i].wf_at(c.child_lo(i, lo), c.child_hi(i, hi), (h - 1) as nat));
        }
        assert forall|i: int| 0 <= i < right.children@.len() implies {
            &&& right.children@[i].items.len() >= MIN_ITEMS
            &&& #[trigger] right.children@[i].wf_at(
                right.child_lo(i, m.key as int),
                right.child_hi(i, hi),
                (h - 1) as nat,
            )
        } by {
            assert(right.children@[i] == c.children@[i + mi + 1]);
            assert(c.children@[i + mi + 1].wf_at(
                c.child_lo(i + mi + 1, lo),
                c.child_hi(i + mi + 1, hi),
                (h - 1) as nat,
            ));
        }
    }
    assert forall|k: i32| k < m.key implies #[trigger] left.lookup(k) == c.lookup(k) by {
        lemma_lookup_sorted(c, k);
        let q = count_less(c.items@, k) as int;
        assert(q <= mi);
        assert(splits_at(left.items@, k, q));
        lemma_lookup_at(left, k, q);
        lemma_lookup_at(c, k, q);
    }
    assert forall|k: i32| k > m.key implies #[trigger] right.lookup(k) == c.lookup(k) by {
        lemma_lookup_sorted(c, k);
        let q = count_less(c.items@, k) as int;
        assert(q > mi);
        assert(splits_at(right.items@, k, q - mi - 1));
        lemma_lookup_at(right, k, q - mi - 1);
        lemma_lookup_at(c, k, q);
    }
    assert(splits_at(c.items@, m.key, mi));
    lemma_lookup_at(c, m.key, mi);
}

/// `k` is not among the node's items and its search descends into child `p`.
pub open spec fn routes_to(n: Node, k: i32, p: int) -> bool {
    &&& count_less(n.items@, k) == p
    &&& !(p < n.items@.len() && n.items@[p].key == k)
}

/// `new` answers every lookup as `old` does, but that, when `added` holds
/// and `old` lacks the item's key, it maps that key to the item's value.
pub open spec fn adds(new: Node, old: Node, item: Item, added: bool) -> bool {
    forall|k: i32|
        #[trigger] new.lookup(k) == (if added && k == item.key && old.lookup(k) is None {
            Some(item.val@)
        } else {
            old.lookup(k)
        })
}

/// Replacing one child by a B-tree with the same bounds keeps the node a
/// B-tree, and changes only the lookups that descend into that child.
pub proof fn lemma_child_replaced(n: Node, n2: Node, p: int, lo: int, hi: int, h: nat)
    requires
        n.wf_at(lo, hi, h),
        h > 0,
        0 <= p < n.children@.len(),
        n2.items@ == n.items@,
        n2.num_items == n.num_items,
        n2.children@.len() == n.children@.len(),
        forall|i: int| 0 <= i < n.children@.len() && i != p ==> n2.children@[i] == n.children@[i],
        n2.children@[p].wf_at(n.child_lo(p, lo), n.child_hi(p, hi), (h - 1) as nat),
        n2.children@[p].items@.len() >= MIN_ITEMS,
    ensures
        n2.wf_at(lo, hi, h),
        forall|k: i32|
            #[trigger] n2.lookup(k) == (if routes_to(n, k, p) {
                n2.children@[p].lookup(k)
            } else {
                n.lookup(k)
            }),
{
    assert forall|i: int| #![trigger n2.children@[i]] 0 <= i < n2.children@.len() implies {
        &&& n2.children@[i].items.len() >= MIN_ITEMS
        &&& n2.children@[i].wf_at(n2.child_lo(i, lo), n2.child_hi(i, hi), (h - 1) as nat)
    } by {
        if i != p {
            assert(n.children@[i] == n2.children@[i]);
        }
    }
}

/// One lookup through a node whose full child was split.
pub proof fn lemma_split_lookup(
    n: Node,
    n2: Node,
    p: int,
    left: Node,
    right: Node,
    m: Item,
    lo: int,
    hi: int,
    h: nat,
    k: i32,
)
    requires
        n.wf_at(lo, hi, h),
        h > 0,
        0 <= p < n.children@.len(),
        n2.items@ == n.items@.insert(p, m),
        n2.children@ == n.children@.update(p, Box::new(left)).insert(p + 1, Box::new(right)),
        n.child_lo(p, lo) < m.key < n.child_hi(p, hi),
        forall|k: i32| k < m.key ==> #[trigger] left.lookup(k) == n.children@[p].lookup(k),
        forall|k: i32| k > m.key ==> #[trigger] right.lookup(k) == n.children@[p].lookup(k),
        n.children@[p].lookup(m.key) == Some(m.val@),
    ensures
        n2.lookup(k) == n.lookup(k),
{
    let s = n.items@;
    let s2 = n2.items@;
    assert(keys_sorted(s2)) by {
        assert forall|i: int, j: int| 0 <= i < j < s2.len() implies s2[i].key < s2[j].key by {
            if j < p {
            } else if j == p {
                assert(s[i].key <= n.child_lo(p, lo));
            } else if i < p {
                assert(s2[j] == s[j - 1]);
            } else if i == p {
                assert(s2[j] == s[j - 1]);
                assert(n.child_hi(p, hi) <= s[j - 1].key);
            } else {
                assert(s2[j] == s[j - 1]);
                assert(s2[i] == s[i - 1]);
            }
        }
    }
    lemma_lookup_sorted(n, k);
    let q = count_less(s, k) as int;
    if q < p {
        if p > 0 {
            assert(s[p - 1].key < m.key);
        }
        assert(splits_at(s2, k, q));
        lemma_lookup_at(n2, k, q);
        lemma_lookup_at(n, k, q);
        assert(n2.children@[q] == n.children@[q]);
    } else if q > p {
        assert(s[p].key < k);
        assert(splits_at(s2, k, q + 1));
        lemma_lookup_at(n2, k, q + 1);
        lemma_lookup_at(n, k, q);
        assert(n2.children@[q + 1] == n.children@[q]);
        if q < s.len() {
            assert(s2[q + 1] == s[q]);
        }
    } else {
        lemma_lookup_at(n, k, q);
        if p < s.len() && s[p].key == k {
            assert(splits_at(s2, k, p + 1));
            lemma_lookup_at(n2, k, p + 1);
            assert(s2[p + 1] == s[p]);
        } else if k < m.key {
            assert(splits_at(s2, k, p));
            lemma_lookup_at(n2, k, p);
        } else if k == m.key {
            assert(splits_at(s2, k, p));
            lemma_lookup_at(n2, k, p);
        } else {
            assert(splits_at(s2, k, p + 1));
            lemma_lookup_at(n2, k, p + 1);
            if p < s.len() {
                assert(s2[p + 1] == s[p]);
            }
        }
    }
}

/// After a full child is split and its median promoted, the node is still
/// a B-tree of the same height and answers every lookup as before.
pub proof fn lemma_parent_after_split(
    n: Node,
    n2: Node,
    p: int,
    left: Node,
    right: Node,
    m: Item,
    lo: int,
    hi: int,
    h: nat,
)
    requires
        n.wf_at(lo, hi, h),
        h > 0,
        n.items@.len() < MAX_ITEMS,
        0 <= p < n.children@.len(),
        n2.items@ == n.items@.insert(p, m),
        n2.num_items == n.num_items + 1,
        n2.children@ == n.children@.update(p, Box::new(left)).insert(p + 1, Box::new(right)),
        n.child_lo(p, lo) < m.key < n.child_hi(p, hi),
        left.wf_at(n.child_lo(p, lo), m.key as int, (h - 1) as nat),
        right.wf_at(m.key as int, n.child_hi(p, hi), (h - 1) as nat),
        left.items@.len() >= MIN_ITEMS,
        right.items@.len() >= MIN_ITEMS,
        forall|k: i32| k < m.key ==> #[trigger] left.lookup(k) == n.children@[p].lookup(k),
        forall|k: i32| k > m.key ==> #[trigger] right.lookup(k) == n.children@[p].lookup(k),
        n.children@[p].lookup(m.key) == Some(m.val@),
    ensures
        n2.wf_at(lo, hi, h),
        forall|k: i32| #[trigger] n2.lookup(k) == n.lookup(k),
{
    let s = n.items@;
    let s2 = n2.items@;
    assert(sorted_between(s2, lo, hi)) by {
        assert forall|i: int, j: int| 0 <= i < j < s2.len() implies s2[i].key < s2[j].key by {
            if j < p {
            } else if j == p {
                assert(s[i].key <= n.child_lo(p, lo));
            } else if i < p {
                assert(s2[j] == s[j - 1]);
            } else if i == p {
                assert(s2[j] == s[j - 1]);
                assert(n.child_hi(p, hi) <= s[j - 1].key);
            } else {
                assert(s2[j] == s[j - 1]);
                assert(s2[i] == s[i - 1]);
            }
        }
        assert forall|i: int| 0 <= i < s2.len() implies lo < #[trigger] s2[i].key < hi by {
            if i < p {
            } else if i == p {
                if p > 0 {
                    assert(lo < s[p - 1].key);
                }
                if p < s.len() {
                    assert(s[p].key < hi);
                }
            } else {
                assert(s2[i] == s[i - 1]);
            }
        }
    }
    assert forall|i: int| #![trigger n2.children@[i]] 0 <= i < n2.children@.len() implies {
        &&& n2.children@[i].items.len() >= MIN_ITEMS
        &&& n2.children@[i].wf_at(n2.child_lo(i, lo), n2.child_hi(i, hi), (h - 1) as nat)
    } by {
        if i < p {
            assert(n2.children@[i] == n.children@[i]);
            assert(n.children@[i].wf_at(n.child_lo(i, lo), n.child_hi(i, hi), (h - 1) as nat));
        } else if i > p + 1 {
            assert(n2.children@[i] == n.children@[i - 1]);
            assert(n.children@[i - 1].wf_at(
                n.child_lo(i - 1, lo),
                n.child_hi(i - 1, hi),
                (h - 1) as nat,
            ));
        }
    }
    assert forall|k: i32| #[trigger] n2.lookup(k) == n.lookup(k) by {
        lemma_split_lookup(n, n2, p, left, right, m, lo, hi, h, k);
    }
}

/// Inserting an item at the place where its absent key falls keeps a leaf
/// a B-tree and adds the item to its lookups.
pub proof fn lemma_leaf_insert(n: Node, n2: Node, pos: int, item: Item, lo: int, hi: int)
    requires
        n.wf_at(lo, hi, 0),
        n.items@.len() < MAX_ITEMS,
        lo < item.key < hi,
        splits_at(n.items@, item.key, pos),
        !(pos < n.items@.len() && n.items@[pos].key == item.key),
        n2.items@ == n.items@.insert(pos, item),
        n2.num_items == n.num_items + 1,
        n2.children@.len() == 0,
    ensures
        n2.wf_at(lo, hi, 0),
        adds(n2, n, item, true),
{
    let s = n.items@;
    let s2 = n2.items@;
    assert(sorted_between(s2, lo, hi)) by {
        assert forall|i: int, j: int| 0 <= i < j < s2.len() implies s2[i].key < s2[j].key by {
            if j < pos {
            } else if j == pos {
            } else if i < pos {
                assert(s2[j] == s[j - 1]);
            } else if i == pos {
                assert(s2[j] == s[j - 1]);
            } else {
                assert(s2[j] == s[j - 1]);
                assert(s2[i] == s[i - 1]);
            }
        }
        assert forall|i: int| 0 <= i < s2.len() implies lo < #[trigger] s2[i].key < hi by {
            if i > pos {
                assert(s2[i] == s[i - 1]);
            }
        }
    }
    assert forall|k: i32| #[trigger] n2.lookup(k) == (if k == item.key && n.lookup(k) is None {
        Some(item.val@)
    } else {
        n.lookup(k)
    }) by {
        lemma_lookup_sorted(n, k);
        let q = count_less(s, k) as int;
        lemma_lookup_at(n, k, q);
        if k < item.key {
            assert(splits_at(s2, k, q));
            lemma_lookup_at(n2, k, q);
        } else if k == item.key {
            lemma_lookup_at(n, k, pos);
            assert(splits_at(s2, k, pos));
            lemma_lookup_at(n2, k, pos);
        } else {
            assert(splits_at(s2, k, q + 1));
            lemma_lookup_at(n2, k, q + 1);
            if q < s.len() {
                assert(s2[q + 1] == s[q]);
            }
        }
    }
}

/// A node in memory: its page id, its sorted items and, unless it is a leaf,
/// one more child than items.
#[derive(Debug)]
pub struct Node {
    pub id: u32,
    pub items: Vec<Item>,
    pub children: Vec<Box<Node>>,
    pub num_items: i32,
}

impl Node {
    /// Lower bound (exclusive) of the keys in child `i`.
    pub open spec fn child_lo(self, i: int, lo: int) -> int {
        if i == 0 {
            lo
        } else {
            self.items@[i - 1].key as int
        }
    }

    /// Upper bound (exclusive) of the keys in child `i`.
    pub open spec fn child_hi(self, i: int, hi: int) -> int {
        if i == self.items.len() {
            hi
        } else {
            self.items@[i].key as int
        }
    }

    /// The value stored under `k`, found by the descent that search makes.
    pub open spec fn lookup(self, k: i32) -> Option<Seq<char>>
        decreases self,
    {
        let p = count_less(self.items@, k) as int;
        if p < self.items.len() && self.items@[p].key == k {
            Some(self.items@[p].val@)
        } else if p < self.children.len() {
            self.children@[p].lookup(k)
        } else {
            None
        }
    }

    /// The subtree at this node is a B-tree of height `h` whose keys lie
    /// strictly between `lo` and `hi`; every node below this one holds at
    /// least `MIN_ITEMS` items.
    pub open spec fn wf_at(self, lo: int, hi: int, h: nat) -> bool
        decreases self,
    {
        &&& self.num_items == self.items.len()
        &&& self.items.len() <= MAX_ITEMS
        &&& sorted_between(self.items@, lo, hi)
        &&& if h == 0 {
            self.children.len() == 0
        } else {
            &&& self.children.len() == self.items.len() + 1
            &&& forall|i: int|
                #![trigger self.children@[i]]
                0 <= i < self.children.len() ==> {
                    &&& self.children@[i].items.len() >= MIN_ITEMS
                    &&& self.children@[i].wf_at(
                        self.child_lo(i, lo),
                        self.child_hi(i, hi),
                        (h - 1) as nat,
                    )
                }
        }
    }

    /// An empty leaf with the given page id.
    pub fn new(id: u32) -> (r: Node)
        ensures
            r.id == id,
            r.items@.len() == 0,
            r.children@.len() == 0,
            r.num_items == 0,
    {
        Node { id, items: Vec::new(), children: Vec::new(), num_items: 0 }
    }

    /// Binary search among the node's items: the position of the first key
    /// not below `key`, and whether it is `key` itself.
    pub fn search(&self, key: i32) -> (r: (i32, bool))
        requires
            self.num_items == self.items@.len(),
            keys_sorted(self.items@),
        ensures
            r.0 == count_less(self.items@, key),
            r.1 == (r.0 < self.items@.len() && self.items@[r.0 as int].key == key),
    {
        let mut low: i32 = 0;
        let mut high: i32 = self.num_items;
        while low < high
            invariant
                0 <= low <= high <= self.items@.len(),
                self.num_items == self.items@.len(),
                keys_sorted(self.items@),
                forall|i: int| 0 <= i < low ==> #[trigger] self.items@[i].key < key,
                forall|i: int| high <= i < self.items@.len() ==> #[trigger] self.items@[i].key > key,
            decreases high - low,
        {
            let mid: i32 = low + (high - low) / 2;
            let mk = self.items[mid as usize].key;
            if mk == key {
                proof {
                    assert(splits_at(self.items@, key, mid as int));
                    lemma_count_less_at(self.items@, key, mid as int);
                }
                return (mid, true);
            } else if mk < key {
                low = mid + 1;
            } else {
                high = mid;
            }
        }
        proof {
            assert(splits_at(self.items@, key, low as int));
            lemma_count_less_at(self.items@, key, low as int);
        }
        (low, false)
    }

    /// Inserts `item` at the first position from `pos` on whose key is not
    /// below the item's; a position past the items leaves the node as it is.
    pub fn insert_item_at(&mut self, pos: i32, item: Item)
        requires
            old(self).num_items == old(self).items@.len(),
            old(self).num_items < i32::MAX,
        ensures
            final(self).id == old(self).id,
            final(self).children@ == old(self).children@,
            0 <= pos <= old(self).num_items ==> {
                &&& final(self).items@ == old(self).items@.insert(
                    scan_from(old(self).items@, pos as int, item.key),
                    item,
                )
                &&& final(self).num_items == old(self).num_items + 1
            },
            !(0 <= pos <= old(self).num_items) ==> *final(self) == *old(self),
    {
        if pos > self.num_items || pos < 0 {
            return ;
        }
        let mut insert_pos = pos as usize;
        while insert_pos < self.items.len() && self.items[insert_pos].key < item.key
            invariant
                pos <= insert_pos <= self.items@.len(),
                scan_from(self.items@, insert_pos as int, item.key) == scan_from(
                    self.items@,
                    pos as int,
                    item.key,
                ),
            decreases self.items@.len() - insert_pos,
        {
            insert_pos += 1;
        }
        self.items.insert(insert_pos, item);
        self.num_items += 1;
    }

    /// Inserts `node` as child `pos`; a position past the items leaves the
    /// node as it is.
    pub fn insert_child_at(&mut self, pos: i32, node: Node)
        ensures
            final(self).id == old(self).id,
            final(self).items@ == old(self).items@,
            final(self).num_items == old(self).num_items,
            0 <= pos <= old(self).num_items && pos <= old(self).children@.len()
                ==> final(self).children@ == old(self).children@.insert(pos as int, Box::new(node)),
            !(0 <= pos <= old(self).num_items && pos <= old(self).children@.len())
                ==> *final(self) == *old(self),
    {
        if pos > self.num_items || pos < 0 || pos as usize > self.children.len() {
            return ;
        }
        self.children.insert(pos as usize, Box::new(node));
    }

    /// Splits a full node around its median item: this node keeps the items
    /// (and children) before the median, a new node on a freshly allocated
    /// page takes those after it, and the median is returned to be promoted.
    /// Fails, changing nothing, when no page can be allocated.
    pub fn split(&mut self, pager: &mut Pager) -> (r: Result<(Item, Node), BtreeError>)
        requires
            old(self).num_items == old(self).items@.len() == MAX_ITEMS,
            old(self).children@.len() == 0 || old(self).children@.len() == MAX_ITEMS + 1,
            old(pager).wf(),
        ensures
            final(pager).wf(),
            final(pager).page_size == old(pager).page_size,
            match r {
                Ok((m, right)) => {
                    &&& old(pager).room(1)
                    &&& final(pager).num_pages == old(pager).num_pages + 1
                    &&& right.id == final(pager).num_pages
                    &&& final(self).id == old(self).id
                    &&& m == old(self).items@[MIN_ITEMS as int]
                    &&& final(self).items@ == old(self).items@.subrange(0, MIN_ITEMS as int)
                    &&& right.items@ == old(self).items@.subrange(MIN_ITEMS + 1, MAX_ITEMS as int)
                    &&& final(self).num_items == MIN_ITEMS
                    &&& right.num_items == MAX_ITEMS - MIN_ITEMS - 1
                    &&& old(self).children@.len() == 0 ==> final(self).children@.len() == 0
                        && right.children@.len() == 0
                    &&& old(self).children@.len() > 0 ==> final(self).children@
                        == old(self).children@.subrange(0, MIN_ITEMS + 1) && right.children@
                        == old(self).children@.subrange(MIN_ITEMS + 1, MAX_ITEMS + 1)
                },
                Err(e) => {
                    &&& !old(pager).room(1)
                    &&& *final(self) == *old(self)
                    &&& *final(pager) == *old(pager)
                },
            },
    {
        let new_id = match pager.allocate_page() {
            Ok(id) => id,
            Err(e) => {
                return Err(e);
            },
        };
        let mut new_node = Node::new(new_id);
        let mid = MIN_ITEMS as usize;
        new_node.items = self.items.split_off(mid + 1);
        new_node.num_items = self.num_items - MIN_ITEMS - 1;
        let mid_item = self.items.pop().unwrap();
        self.num_items = MIN_ITEMS;
        if self.children.len() > 0 {
            new_node.children = self.children.split_off(mid + 1);
        }
        proof {
            assert(self.items@ =~= old(self).items@.subrange(0, MIN_ITEMS as int));
        }
        Ok((mid_item, new_node))
    }

    /// Inserts `item` into the subtree at this node, splitting on the way
    /// down every full child that the descent would enter. A key already
    /// present keeps its value. Each split takes a new page; when none can
    /// be had the descent stops there, the tree intact and without the item.
    pub fn insert(
        &mut self,
        item: Item,
        pager: &mut Pager,
        Ghost(lo): Ghost<int>,
        Ghost(hi): Ghost<int>,
        Ghost(h): Ghost<nat>,
    )
        requires
            old(self).wf_at(lo, hi, h),
            old(self).items@.len() < MAX_ITEMS,
            lo < item.key < hi,
            old(pager).wf(),
            ids_in(*old(self), old(pager).num_pages),
            ids_unique(*old(self)),
        ensures
            ids_in(*final(self), final(pager).num_pages),
            ids_unique(*final(self)),
            forall|x: u32| #[trigger] has_id(*final(self), x) ==> has_id(*old(self), x) || x > old(pager).num_pages,
            final(self).wf_at(lo, hi, h),
            final(self).id == old(self).id,
            final(self).items@.len() >= old(self).items@.len(),
            final(pager).wf(),
            final(pager).page_size == old(pager).page_size,
            final(pager).num_pages >= old(pager).num_pages,
            adds(*final(self), *old(self), item, true) || adds(*final(self), *old(self), item, false),
            old(pager).room(h) ==> adds(*final(self), *old(self), item, true),
            final(pager).num_pages <= old(pager).num_pages + h,
            h == 0 ==> final(self).items@ == (if old(self).lookup(item.key) is Some {
                old(self).items@
            } else {
                old(self).items@.insert(count_less(old(self).items@, item.key) as int, item)
            }),
            h == 0 ==> *final(pager) == *old(pager),
            h > 0 && old(self).children@[count_less(old(self).items@, item.key) as int].items@.len()
                < MAX_ITEMS ==> final(self).items@ == old(self).items@ && final(pager).num_pages
                <= old(pager).num_pages + h - 1,
        decreases h,
    {
        let ghost n0 = *self;
        let (pos, found) = self.search(item.key);
        proof {
            lemma_lookup_sorted(n0, item.key);
            lemma_lookup_at(n0, item.key, pos as int);
        }
        if found {
            return ;
        }
        if self.is_leaf() {
            proof {
                if (pos as int) < n0.items@.len() {
                    assert(n0.items@[pos as int].key > item.key);
                }
            }
            self.insert_item_at(pos, item);
            proof {
                lemma_leaf_insert(n0, *self, pos as int, item, lo, hi);
            }
            return ;
        }
        assert(h > 0);
        let mut p = pos as usize;
        assert(n0.children@[p as int].wf_at(n0.child_lo(p as int, lo), n0.child_hi(p as int, hi), (h - 1) as nat));
        if self.children[p].num_items >= MAX_ITEMS {
            let ghost c = *n0.children@[p as int];
            match self.children[p].split(pager) {
                Err(_) => {
                    proof {
                        if old(pager).room(h) {
                            old(pager).lemma_room_mono(h, 1);
                        }
                    }
                    return ;
                },
                Ok((mid, right)) => {
                    let ghost left = *self.children@[p as int];
                    let ghost n1 = *self;
                    proof {
                        lemma_split_halves(c, left, right, mid, n0.child_lo(p as int, lo), n0.child_hi(p as int, hi), (h - 1) as nat);
                        if (pos as int) < n0.items@.len() {
                            assert(n0.items@[pos as int].key >= n0.child_hi(p as int, hi));
                        }
                        assert(scan_from(n1.items@, pos as int, mid.key) == pos as int);
                    }
                    let mid_key = mid.key;
                    self.insert_item_at(pos, mid);
                    self.insert_child_at(pos + 1, right);
                    proof {
                        assert(self.children@ =~= n0.children@.update(p as int, Box::new(left)).insert(p + 1, Box::new(right)));
                        lemma_parent_after_split(n0, *self, p as int, left, right, mid, lo, hi, h);
                        lemma_split_ids(n0, *self, p as int, left, right, old(pager).num_pages, pager.num_pages);
                        lemma_split_unique(n0, *self, p as int, left, right, old(pager).num_pages);
                    }
                    if item.key == mid_key {
                        return ;
                    }
                    if item.key > mid_key {
                        p = p + 1;
                    }
                },
            }
        }
        let ghost n1 = *self;
        proof {
            if old(pager).room(h) {
                if pager.num_pages == old(pager).num_pages {
                    old(pager).lemma_room_mono(h, (h - 1) as nat);
                }
            }
            lemma_lookup_sorted(n1, item.key);
            assert(splits_at(n1.items@, item.key, p as int));
            lemma_count_less_at(n1.items@, item.key, p as int);
            assert(routes_to(n1, item.key, p as int));
            assert(n1.children@[p as int].wf_at(n1.child_lo(p as int, lo), n1.child_hi(p as int, hi), (h - 1) as nat));
        }
        let ghost clo = n1.child_lo(p as int, lo);
        let ghost chi = n1.child_hi(p as int, hi);
        let ghost np_mid = pager.num_pages;
        assert(ids_in(n1, np_mid));
        assert(ids_unique(n1));
        assert(forall|x: u32| #[trigger] has_id(n1, x) ==> has_id(n0, x) || x > old(pager).num_pages);
        self.children[p].insert(item, pager, Ghost(clo), Ghost(chi), Ghost((h - 1) as nat));
        proof {
            lemma_child_replaced(n1, *self, p as int, lo, hi, h);
            lemma_replaced_ids(n1, *self, p as int, np_mid, pager.num_pages);
            lemma_replaced_unique(n1, *self, p as int, np_mid);
            let c1 = *n1.children@[p as int];
            let c2 = *self.children@[p as int];
            assert forall|added: bool| adds(c2, c1, item, added) implies adds(*self, n0, item, added) by {
                assert forall|k: i32| #[trigger] self.lookup(k) == (if added && k == item.key && n0.lookup(k) is None {
                    Some(item.val@)
                } else {
                    n0.lookup(k)
                }) by {
                    assert(c2.lookup(k) == (if added && k == item.key && c1.lookup(k) is None {
                        Some(item.val@)
                    } else {
                        c1.lookup(k)
                    }));
                    assert(n1.lookup(k) == n0.lookup(k));
                }
            }
        }
    }

    /// True when the node has no children.
    pub fn is_leaf(&self) -> (r: bool)
        ensures
            r == (self.children@.len() == 0),
    {
        self.children.len() == 0
    }
}

} // verus!
