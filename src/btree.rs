use crate::node::{
    ids_in, ids_unique, has_id, lemma_halves_unique, lemma_has_id_in, lemma_replaced_unique_within, lemma_halves_ids, lemma_ids_in_mono, lemma_replaced_ids, adds, count_less, lemma_child_replaced, lemma_count_less_at, lemma_lookup_at,
    lemma_lookup_sorted, lemma_split_halves, routes_to, splits_at, Node,
};
use crate::rebalance::{
    lemma_leaf_remove, lemma_replace_with_pred, lemma_replace_with_succ, removes,
};
use crate::pager::{valid_page_size, Pager};
use crate::{BtreeError, Item, MAX_ITEMS, MIN_ITEMS};
use vstd::prelude::*;

verus! {

/// Exclusive lower bound of every key.
pub open spec fn key_floor() -> int {
    i32::MIN as int - 1
}

/// Exclusive upper bound of every key.
pub open spec fn key_ceil() -> int {
    i32::MAX as int + 1
}

/// `m` after inserting `v` under `k` as the tree does: a key already
/// present keeps its value.
pub open spec fn with_inserted(m: Map<i32, Seq<char>>, k: i32, v: Seq<char>) -> Map<i32, Seq<char>> {
    if m.contains_key(k) {
        m
    } else {
        m.insert(k, v)
    }
}

/// In a one-item sequence, a key falls at 0 or 1.
proof fn lemma_count_less_sorted_len1(s: Seq<Item>, k: i32)
    requires
        s.len() == 1,
    ensures
        count_less(s, k) <= 1,
{
    assert(s.drop_last().len() == 0);
    assert(count_less(s.drop_last(), k) == 0);
}

/// A B-tree index: its root, if any, and the pages that its nodes live on.
pub struct Btree {
    pub pager: Pager,
    pub root: Option<Box<Node>>,
    /// Number of levels below the root.
    pub height: Ghost<nat>,
}

impl Btree {
    /// The pager is consistent and the root heads a B-tree of the recorded
    /// height, below the page count, whose root, unless it is a leaf,
    /// holds at least one item, and whose nodes all have distinct page ids
    /// of allocated pages.
    pub open spec fn wf(&self) -> bool {
        &&& self.pager.wf()
        &&& match self.root {
            None => true,
            Some(r) => {
                &&& r.wf_at(key_floor(), key_ceil(), self.height@)
                &&& self.height@ > 0 ==> r.items@.len() >= 1
                &&& self.height@ < self.pager.num_pages
                &&& ids_in(*r, self.pager.num_pages)
                &&& ids_unique(*r)
            },
        }
    }

    /// The value stored under `k`.
    pub open spec fn get(&self, k: i32) -> Option<Seq<char>> {
        match self.root {
            None => None,
            Some(r) => r.lookup(k),
        }
    }

    /// Pages enough for any insertion into the tree.
    pub open spec fn insert_room(&self) -> bool {
        self.pager.room(self.height@ + 3)
    }

    /// An empty tree whose pages will have the given size.
    pub fn new(page_size: usize) -> (r: Btree)
        ensures
            r.wf(),
            r.root is None,
            r.pager.page_size == page_size,
            r.pager.num_pages == 0,
            r.height@ == 0,
            r@ == Map::<i32, Seq<char>>::empty(),
    {
        let r = Btree { pager: Pager::new(page_size), root: None, height: Ghost(0) };
        assert(r@ =~= Map::<i32, Seq<char>>::empty());
        r
    }

    /// Inserts the item. A key already present keeps its value. When the
    /// pages that the insertion needs cannot be allocated (an invalid page
    /// size, or the page ids running out), the tree is left without it.
    pub fn insert(&mut self, item: Item)
        requires
            old(self).wf(),
        ensures
            final(self).wf(),
            final(self).pager.page_size == old(self).pager.page_size,
            final(self).pager.num_pages >= old(self).pager.num_pages,
            old(self).insert_room() ==> final(self)@ == with_inserted(old(self)@, item.key, item.val@),
            final(self)@ == old(self)@ || final(self)@ == with_inserted(old(self)@, item.key, item.val@),
            final(self).height@ <= old(self).height@ + 1,
            final(self).pager.num_pages <= old(self).pager.num_pages + old(self).height@ + 2,
            !valid_page_size(old(self).pager.page_size) ==> *final(self) == *old(self),
            old(self).root is None && old(self).pager.room(1) ==> {
                &&& final(self).root is Some
                &&& final(self).root->0.items@ == seq![item]
                &&& final(self).height@ == 0
                &&& final(self).pager.num_pages == old(self).pager.num_pages + 1
            },
            old(self).root is Some && old(self).height@ == 0 && old(self).root->0.items@.len() < MAX_ITEMS
                ==> {
                &&& final(self).root is Some
                &&& final(self).height@ == 0
                &&& final(self).pager == old(self).pager
                &&& final(self).root->0.items@ == (if old(self)@.contains_key(item.key) {
                    old(self).root->0.items@
                } else {
                    old(self).root->0.items@.insert(
                        count_less(old(self).root->0.items@, item.key) as int,
                        item,
                    )
                })
            },
            old(self).root is Some && old(self).root->0.items@.len() == MAX_ITEMS && old(self).pager.room(2)
                ==> {
                &&& final(self).root is Some
                &&& final(self).root->0.items@ == seq![old(self).root->0.items@[MIN_ITEMS as int]]
                &&& final(self).root->0.children@.len() == 2
                &&& final(self).height@ == old(self).height@ + 1
            },
    {
        let ghost t0 = *self;
        if self.root.is_none() {
            match self.pager.allocate_page() {
                Ok(id) => {
                    self.root = Some(Box::new(Node::new(id)));
                    self.height = Ghost(0);
                },
                Err(_) => {
                    proof {
                        if t0.insert_room() {
                            t0.pager.lemma_room_mono(t0.height@ + 3, 1);
                        }
                        assert(self@ =~= t0@);
                    }
                    return ;
                },
            }
        }
        let ghost t1 = *self;
        proof {
            assert(forall|k: i32| #[trigger] t1.get(k) == t0.get(k));
            if t0.insert_room() && t0.root is None {
                t0.pager.lemma_room_mono(t0.height@ + 3, 1);
                assert(t1.pager.room(0));
            }
        }
        let root_is_full = match &self.root {
            Some(r) => r.num_items >= MAX_ITEMS,
            None => false,
        };
        if root_is_full {
            if !self.pager.has_room(2) {
                proof {
                    if t0.insert_room() {
                        t0.pager.lemma_room_mono(t0.height@ + 3, 2);
                    }
                    assert(*self == t0);
                    assert(self@ =~= t0@);
                }
                return ;
            }
            self.split_root();
        }
        let ghost t2 = *self;
        proof {
            if t0.insert_room() {
                if root_is_full {
                    assert(t2.height@ == t0.height@ + 1);
                    assert(t2.pager.num_pages == t0.pager.num_pages + 2);
                } else if t0.root is Some {
                    t0.pager.lemma_room_mono(t0.height@ + 3, t0.height@);
                }
            }
        }
        match &mut self.root {
            Some(r) => {
                r.insert(item, &mut self.pager, Ghost(key_floor()), Ghost(key_ceil()), Ghost(self.height@));
            },
            None => {},
        }
        proof {
            let r2 = t2.root->0;
            let r3 = self.root->0;
            if root_is_full {
                lemma_count_less_sorted_len1(r2.items@, item.key);
            }
            if t0.root is None {
                assert(r2.items@.len() == 0);
                assert(r2.lookup(item.key) is None);
                assert(r3.items@ =~= seq![item]);
            }
            if t0.root is Some && t0.height@ == 0 && !root_is_full {
                assert(t0@.contains_key(item.key) == (r2.lookup(item.key) is Some));
            }
            assert(forall|k: i32| #[trigger] t2.get(k) == t0.get(k));
            assert(forall|k: i32| #[trigger] self.get(k) == r3.lookup(k));
            assert(forall|k: i32| #[trigger] t2.get(k) == r2.lookup(k));
            if adds(*r3, *r2, item, true) {
                assert forall|k: i32| #[trigger] self.get(k) == (if k == item.key && t0.get(k) is None {
                    Some(item.val@)
                } else {
                    t0.get(k)
                }) by {
                    assert(r3.lookup(k) == (if k == item.key && r2.lookup(k) is None {
                        Some(item.val@)
                    } else {
                        r2.lookup(k)
                    }));
                    assert(t2.get(k) == t0.get(k));
                }
                assert(self@ =~= (if t0@.contains_key(item.key) {
                    t0@
                } else {
                    t0@.insert(item.key, item.val@)
                }));
            } else {
                assert forall|k: i32| #[trigger] self.get(k) == t0.get(k) by {
                    assert(r3.lookup(k) == (if false && k == item.key && r2.lookup(k) is None {
                        Some(item.val@)
                    } else {
                        r2.lookup(k)
                    }));
                    assert(t2.get(k) == t0.get(k));
                }
                assert(self@ =~= t0@);
            }
        }
    }

    /// Splits a full root: its median becomes the only item of a new root
    /// on a new page, whose two children are the halves.
    fn split_root(&mut self)
        requires
            old(self).wf(),
            old(self).root is Some,
            old(self).root->0.items@.len() == MAX_ITEMS,
            old(self).pager.room(2),
        ensures
            final(self).wf(),
            final(self).root is Some,
            final(self).root->0.items@ == seq![old(self).root->0.items@[MIN_ITEMS as int]],
            final(self).root->0.children@.len() == 2,
            final(self).root->0.children@[0].items@.len() == MIN_ITEMS,
            final(self).root->0.children@[1].items@.len() == MAX_ITEMS - MIN_ITEMS - 1,
            final(self).height@ == old(self).height@ + 1,
            final(self).pager.num_pages == old(self).pager.num_pages + 2,
            final(self).pager.page_size == old(self).pager.page_size,
            forall|k: i32| #[trigger] final(self).get(k) == old(self).get(k),
    {
        let ghost t0 = *self;
        let mut old_root = match self.root.take() {
            Some(r) => r,
            None => {
                return ;
            },
        };
        let ghost c = *old_root;
        let ghost h = self.height@;
        proof {
            t0.pager.lemma_room_mono(2, 1);
        }
        match old_root.split(&mut self.pager) {
            Ok((mid_item, new_node)) => {
                let ghost left = *old_root;
                proof {
                    lemma_split_halves(c, left, new_node, mid_item, key_floor(), key_ceil(), h);
                }
                let new_root_id = match self.pager.allocate_page() {
                    Ok(id) => id,
                    Err(_) => {
                        return ;
                    },
                };
                let mut new_root = Node::new(new_root_id);
                new_root.insert_item_at(0, mid_item);
                new_root.insert_child_at(0, *old_root);
                new_root.insert_child_at(1, new_node);
                proof {
                    let nr = new_root;
                    let np1 = (t0.pager.num_pages + 1) as u32;
                    lemma_halves_ids(c, left, new_node, t0.pager.num_pages, np1);
                    lemma_ids_in_mono(left, np1, self.pager.num_pages);
                    lemma_ids_in_mono(new_node, np1, self.pager.num_pages);
                    assert(nr.children@ =~= seq![Box::new(left), Box::new(new_node)]);
                    assert(ids_in(nr, self.pager.num_pages));
                    lemma_halves_unique(c, left, new_node, t0.pager.num_pages);
                    assert(!has_id(left, nr.id)) by {
                        if has_id(left, nr.id) {
                            lemma_has_id_in(c, t0.pager.num_pages, nr.id);
                        }
                    }
                    assert(!has_id(new_node, nr.id)) by {
                        if has_id(new_node, nr.id) && nr.id != new_node.id {
                            lemma_has_id_in(c, t0.pager.num_pages, nr.id);
                        }
                    }
                    assert(ids_unique(nr)) by {
                        assert forall|i: int| #![trigger nr.children@[i]] 0 <= i < nr.children@.len() implies !has_id(*nr.children@[i], nr.id) && ids_unique(*nr.children@[i]) by {
                            assert(nr.children@[0] == left);
                            assert(nr.children@[1] == new_node);
                        }
                        assert forall|i: int, j: int, x: u32| 0 <= i < nr.children@.len() && 0 <= j < nr.children@.len() && i != j && #[trigger] has_id(*nr.children@[i], x) implies !#[trigger] has_id(*nr.children@[j], x) by {
                            assert(nr.children@[0] == left);
                            assert(nr.children@[1] == new_node);
                        }
                    }
                    assert(nr.items@ =~= seq![mid_item]);
                    assert(nr.children@ =~= seq![Box::new(left), Box::new(new_node)]);
                    assert(nr.children@[0] == left);
                    assert(nr.children@[1] == new_node);
                    assert(nr.wf_at(key_floor(), key_ceil(), h + 1));
                    assert forall|k: i32| #[trigger] nr.lookup(k) == c.lookup(k) by {
                        lemma_lookup_sorted(nr, k);
                        lemma_lookup_at(nr, k, count_less(nr.items@, k) as int);
                    }
                }
                self.root = Some(Box::new(new_root));
                self.height = Ghost(h + 1);
            },
            Err(_) => {
                self.root = Some(old_root);
            },
        }
    }

    /// The value stored under `key`; `NotFound` when there is none.
    pub fn search(&self, key: i32) -> (r: Result<String, BtreeError>)
        requires
            self.wf(),
        ensures
            match r {
                Ok(v) => self@.contains_key(key) && self@[key] == v@,
                Err(e) => !self@.contains_key(key) && e == BtreeError::NotFound,
            },
    {
        let mut current: &Node = match &self.root {
            Some(r) => r,
            None => {
                return Err(BtreeError::NotFound);
            },
        };
        let ghost mut lo = key_floor();
        let ghost mut hi = key_ceil();
        let ghost mut h = self.height@;
        loop
            invariant
                current.wf_at(lo, hi, h),
                current.lookup(key) == self.get(key),
            decreases h,
        {
            let (pos, found) = current.search(key);
            proof {
                lemma_lookup_sorted(*current, key);
                lemma_lookup_at(*current, key, pos as int);
            }
            if found {
                return Ok(current.items[pos as usize].val.as_str().to_owned());
            }
            if current.is_leaf() {
                return Err(BtreeError::NotFound);
            }
            proof {
                assert(current.children@[pos as int].wf_at(
                    current.child_lo(pos as int, lo),
                    current.child_hi(pos as int, hi),
                    (h - 1) as nat,
                ));
                lo = current.child_lo(pos as int, lo);
                hi = current.child_hi(pos as int, hi);
                h = (h - 1) as nat;
            }
            current = &current.children[pos as usize];
        }
    }
}

impl Btree {
    /// Removes `key` and its value; `NotFound` when the tree is empty or
    /// lacks the key. A root left without items over a single child is
    /// replaced by that child.
    pub fn delete(&mut self, key: i32) -> (r: Result<(), BtreeError>)
        requires
            old(self).wf(),
        ensures
            final(self).wf(),
            final(self).pager == old(self).pager,
            final(self)@ == old(self)@.remove(key),
            r is Ok <==> old(self)@.contains_key(key),
            r is Err ==> r == Err::<(), BtreeError>(BtreeError::NotFound),
            final(self).height@ <= old(self).height@,
            old(self).root is None ==> *final(self) == *old(self),
    {
        let ghost t0 = *self;
        let mut root = match self.root.take() {
            Some(r) => r,
            None => {
                proof {
                    assert(t0@ =~= t0@.remove(key));
                }
                return Err(BtreeError::NotFound);
            },
        };
        let ghost h = self.height@;
        let result = Self::delete_recursive(&mut root, key, Ghost(key_floor()), Ghost(key_ceil()), Ghost(h));
        let ghost r1 = *root;
        if root.num_items == 0 && !root.is_leaf() {
            let child = root.children.remove(0);
            proof {
                assert(r1.children@[0].wf_at(r1.child_lo(0, key_floor()), r1.child_hi(0, key_ceil()), (h - 1) as nat));
                assert forall|k: i32| #[trigger] r1.lookup(k) == child.lookup(k) by {
                    assert(splits_at(r1.items@, k, 0));
                    lemma_lookup_at(r1, k, 0);
                }
            }
            proof {
                assert(ids_in(r1, self.pager.num_pages));
                assert(ids_in(*r1.children@[0], self.pager.num_pages));
            }
            self.root = Some(child);
            self.height = Ghost((h - 1) as nat);
        } else {
            self.root = Some(root);
        }
        proof {
            assert forall|k: i32| #[trigger] self.get(k) == (if k == key {
                None
            } else {
                t0.get(k)
            }) by {
                assert(r1.lookup(k) == (if k == key {
                    None
                } else {
                    t0.root->0.lookup(k)
                }));
            }
            assert(self@ =~= t0@.remove(key));
        }
        result
    }

    /// Removes `key` from the subtree at `node`, which, unless it is the
    /// root, holds more than the fewest items; it loses at most one item.
    fn delete_recursive(node: &mut Node, key: i32, Ghost(lo): Ghost<int>, Ghost(hi): Ghost<int>, Ghost(h): Ghost<nat>) -> (r: Result<(), BtreeError>)
        requires
            old(node).wf_at(lo, hi, h),
            h > 0 ==> old(node).items@.len() >= 1,
        ensures
            final(node).wf_at(lo, hi, h),
            final(node).id == old(node).id,
            final(node).items@.len() + 1 >= old(node).items@.len(),
            removes(*final(node), *old(node), key),
            r is Ok <==> old(node).lookup(key) is Some,
            r is Err ==> r == Err::<(), BtreeError>(BtreeError::NotFound),
            forall|np: u32| #[trigger] ids_in(*old(node), np) ==> ids_in(*final(node), np),
            ids_unique(*old(node)) ==> ids_unique(*final(node)) && forall|z: u32| #[trigger] has_id(*final(node), z) ==> has_id(*old(node), z),
        decreases h, 1int,
    {
        let ghost n0 = *node;
        let (pos, found) = node.search(key);
        proof {
            lemma_lookup_sorted(n0, key);
            lemma_lookup_at(n0, key, pos as int);
        }
        if node.is_leaf() {
            if found {
                Self::delete_from_leaf(node, pos as usize, Ghost(lo), Ghost(hi));
                Ok(())
            } else {
                Err(BtreeError::NotFound)
            }
        } else if found {
            Self::delete_from_internal(node, pos as usize, Ghost(lo), Ghost(hi), Ghost(h))
        } else {
            proof {
                assert(routes_to(n0, key, pos as int));
            }
            Self::delete_from_subtree(node, pos as usize, key, Ghost(lo), Ghost(hi), Ghost(h))
        }
    }

    /// Removes item `pos` of a leaf.
    fn delete_from_leaf(node: &mut Node, pos: usize, Ghost(lo): Ghost<int>, Ghost(hi): Ghost<int>)
        requires
            old(node).wf_at(lo, hi, 0),
            pos < old(node).items@.len(),
        ensures
            final(node).wf_at(lo, hi, 0),
            final(node).id == old(node).id,
            final(node).items@.len() + 1 == old(node).items@.len(),
            removes(*final(node), *old(node), old(node).items@[pos as int].key),
            forall|np: u32| #[trigger] ids_in(*old(node), np) ==> ids_in(*final(node), np),
            ids_unique(*old(node)) ==> ids_unique(*final(node)) && forall|z: u32| #[trigger] has_id(*final(node), z) ==> has_id(*old(node), z),
    {
        let ghost n0 = *node;
        node.items.remove(pos);
        node.num_items = node.num_items - 1;
        proof {
            lemma_leaf_remove(n0, *node, pos as int, lo, hi);
        }
    }

    /// Removes separator `pos` of an internal node: replaced by its
    /// predecessor or successor when the child on that side can spare an
    /// item, otherwise merged down with its two children and removed there.
    fn delete_from_internal(node: &mut Node, pos: usize, Ghost(lo): Ghost<int>, Ghost(hi): Ghost<int>, Ghost(h): Ghost<nat>) -> (r: Result<(), BtreeError>)
        requires
            old(node).wf_at(lo, hi, h),
            h > 0,
            pos < old(node).items@.len(),
        ensures
            final(node).wf_at(lo, hi, h),
            final(node).id == old(node).id,
            final(node).items@.len() + 1 >= old(node).items@.len(),
            removes(*final(node), *old(node), old(node).items@[pos as int].key),
            r is Ok,
            forall|np: u32| #[trigger] ids_in(*old(node), np) ==> ids_in(*final(node), np),
            ids_unique(*old(node)) ==> ids_unique(*final(node)) && forall|z: u32| #[trigger] has_id(*final(node), z) ==> has_id(*old(node), z),
        decreases h, 0int,
    {
        let ghost n0 = *node;
        let key = node.items[pos].key;
        proof {
            lemma_lookup_sorted(n0, key);
            assert(splits_at(n0.items@, key, pos as int));
            lemma_lookup_at(n0, key, pos as int);
            assert(n0.children@[pos as int].wf_at(n0.child_lo(pos as int, lo), n0.child_hi(pos as int, hi), (h - 1) as nat));
            assert(n0.children@[pos + 1].wf_at(n0.child_lo(pos + 1, lo), n0.child_hi(pos + 1, hi), (h - 1) as nat));
        }
        if node.children[pos].num_items > MIN_ITEMS {
            let pred = node.get_predecessor(pos, Ghost(lo), Ghost(hi), Ghost(h));
            let ghost pg = pred;
            let pk = pred.key;
            node.items.remove(pos);
            node.items.insert(pos, pred);
            let ghost clo = n0.child_lo(pos as int, lo);
            let _ = Self::delete_recursive(&mut node.children[pos], pk, Ghost(clo), Ghost(key as int), Ghost((h - 1) as nat));
            proof {
                assert(node.items@ =~= n0.items@.update(pos as int, pg));
                assert(node.children@ =~= n0.children@.update(pos as int, node.children@[pos as int]));
                lemma_replace_with_pred(n0, *node, pos as int, pg, *node.children@[pos as int], lo, hi, h);
                assert forall|np: u32| #[trigger] ids_in(n0, np) implies ids_in(*node, np) by {
                    assert(ids_in(*n0.children@[pos as int], np));
                    lemma_replaced_ids(n0, *node, pos as int, np, np);
                }
                if ids_unique(n0) {
                    lemma_replaced_unique_within(n0, *node, pos as int);
                }
            }
            Ok(())
        } else if node.children[pos + 1].num_items > MIN_ITEMS {
            let succ = node.get_successor(pos, Ghost(lo), Ghost(hi), Ghost(h));
            let ghost sg = succ;
            let sk = succ.key;
            node.items.remove(pos);
            node.items.insert(pos, succ);
            let ghost chi = n0.child_hi(pos + 1, hi);
            let _ = Self::delete_recursive(&mut node.children[pos + 1], sk, Ghost(key as int), Ghost(chi), Ghost((h - 1) as nat));
            proof {
                assert(node.items@ =~= n0.items@.update(pos as int, sg));
                assert(node.children@ =~= n0.children@.update(pos + 1, node.children@[pos + 1]));
                lemma_replace_with_succ(n0, *node, pos as int, sg, *node.children@[pos + 1], lo, hi, h);
                assert forall|np: u32| #[trigger] ids_in(n0, np) implies ids_in(*node, np) by {
                    assert(ids_in(*n0.children@[pos + 1], np));
                    lemma_replaced_ids(n0, *node, pos + 1, np, np);
                }
                if ids_unique(n0) {
                    lemma_replaced_unique_within(n0, *node, pos + 1);
                }
            }
            Ok(())
        } else {
            node.merge_children(pos, Ghost(lo), Ghost(hi), Ghost(h));
            let ghost n1 = *node;
            proof {
                assert(splits_at(n1.items@, key, pos as int)) by {
                    assert forall|j: int| 0 <= j < n1.items@.len() implies #[trigger] n1.items@[j] == (if j < pos {
                        n0.items@[j]
                    } else {
                        n0.items@[j + 1]
                    }) by {}
                }
                lemma_count_less_at(n1.items@, key, pos as int);
                if (pos as int) < n1.items@.len() {
                    assert(n1.items@[pos as int] == n0.items@[pos + 1]);
                }
                assert(routes_to(n1, key, pos as int));
                lemma_lookup_at(n1, key, pos as int);
                assert(n1.children@[pos as int].wf_at(n1.child_lo(pos as int, lo), n1.child_hi(pos as int, hi), (h - 1) as nat));
            }
            let r = Self::delete_recursive(
                &mut node.children[pos],
                key,
                Ghost(n1.child_lo(pos as int, lo)),
                Ghost(n1.child_hi(pos as int, hi)),
                Ghost((h - 1) as nat),
            );
            proof {
                lemma_child_replaced(n1, *node, pos as int, lo, hi, h);
                assert forall|np: u32| #[trigger] ids_in(n0, np) implies ids_in(*node, np) by {
                    assert(ids_in(n1, np));
                    assert(ids_in(*n1.children@[pos as int], np));
                    lemma_replaced_ids(n1, *node, pos as int, np, np);
                }
                if ids_unique(n0) {
                    lemma_replaced_unique_within(n1, *node, pos as int);
                }
                let c1 = *n1.children@[pos as int];
                assert forall|k: i32| #[trigger] node.lookup(k) == (if k == key {
                    None
                } else {
                    n0.lookup(k)
                }) by {
                    assert(n1.lookup(k) == n0.lookup(k));
                }
                assert(n0.lookup(key) is Some);
            }
            r
        }
    }

    /// Removes `key`, absent from `node` itself, from child `pos`, after
    /// bringing that child above the fewest items if it is at them.
    fn delete_from_subtree(node: &mut Node, pos: usize, key: i32, Ghost(lo): Ghost<int>, Ghost(hi): Ghost<int>, Ghost(h): Ghost<nat>) -> (r: Result<(), BtreeError>)
        requires
            old(node).wf_at(lo, hi, h),
            h > 0,
            old(node).items@.len() >= 1,
            routes_to(*old(node), key, pos as int),
            pos < old(node).children@.len(),
        ensures
            final(node).wf_at(lo, hi, h),
            final(node).id == old(node).id,
            final(node).items@.len() + 1 >= old(node).items@.len(),
            removes(*final(node), *old(node), key),
            r is Ok <==> old(node).lookup(key) is Some,
            r is Err ==> r == Err::<(), BtreeError>(BtreeError::NotFound),
            forall|np: u32| #[trigger] ids_in(*old(node), np) ==> ids_in(*final(node), np),
            ids_unique(*old(node)) ==> ids_unique(*final(node)) && forall|z: u32| #[trigger] has_id(*final(node), z) ==> has_id(*old(node), z),
        decreases h, 0int,
    {
        let ghost n0 = *node;
        proof {
            assert(n0.children@[pos as int].wf_at(n0.child_lo(pos as int, lo), n0.child_hi(pos as int, hi), (h - 1) as nat));
            assert(n0.children@[pos as int].num_items == n0.children@[pos as int].items@.len());
        }
        if node.children[pos].num_items == MIN_ITEMS {
            Self::fill_child(node, pos, Ghost(key), Ghost(lo), Ghost(hi), Ghost(h));
        }
        let ghost n1 = *node;
        let (target, _) = node.search(key);
        proof {
            lemma_lookup_sorted(n1, key);
            assert(routes_to(n1, key, target as int));
            assert(n1.children@[target as int].wf_at(n1.child_lo(target as int, lo), n1.child_hi(target as int, hi), (h - 1) as nat));
        }
        let r = Self::delete_recursive(
            &mut node.children[target as usize],
            key,
            Ghost(n1.child_lo(target as int, lo)),
            Ghost(n1.child_hi(target as int, hi)),
            Ghost((h - 1) as nat),
        );
        proof {
            lemma_lookup_at(n1, key, target as int);
            lemma_child_replaced(n1, *node, target as int, lo, hi, h);
            assert forall|np: u32| #[trigger] ids_in(n0, np) implies ids_in(*node, np) by {
                assert(ids_in(n1, np));
                assert(ids_in(*n1.children@[target as int], np));
                lemma_replaced_ids(n1, *node, target as int, np, np);
            }
            if ids_unique(n0) {
                lemma_replaced_unique_within(n1, *node, target as int);
            }
            assert forall|k: i32| #[trigger] node.lookup(k) == (if k == key {
                None
            } else {
                n0.lookup(k)
            }) by {
                assert(n1.lookup(k) == n0.lookup(k));
            }
        }
        r
    }

    /// Brings child `pos`, which holds the fewest items, above them: borrows
    /// from a sibling that can spare one, left first, or else merges with a
    /// sibling, left first. `key` descends into child `pos`; afterwards it
    /// descends into a child that holds more than the fewest items.
    fn fill_child(node: &mut Node, pos: usize, Ghost(key): Ghost<i32>, Ghost(lo): Ghost<int>, Ghost(hi): Ghost<int>, Ghost(h): Ghost<nat>)
        requires
            old(node).wf_at(lo, hi, h),
            h > 0,
            old(node).items@.len() >= 1,
            pos < old(node).children@.len(),
            old(node).children@[pos as int].items@.len() == MIN_ITEMS,
            routes_to(*old(node), key, pos as int),
        ensures
            final(node).wf_at(lo, hi, h),
            final(node).id == old(node).id,
            final(node).items@.len() + 1 >= old(node).items@.len(),
            forall|k: i32| #[trigger] final(node).lookup(k) == old(node).lookup(k),
            routes_to(*final(node), key, count_less(final(node).items@, key) as int),
            final(node).children@[count_less(final(node).items@, key) as int].items@.len() > MIN_ITEMS,
            forall|np: u32| #[trigger] ids_in(*old(node), np) ==> ids_in(*final(node), np),
            ids_unique(*old(node)) ==> ids_unique(*final(node)) && forall|z: u32| #[trigger] has_id(*final(node), z) ==> has_id(*old(node), z),
    {
        let ghost n0 = *node;
        let ghost s0 = n0.items@;
        proof {
            lemma_lookup_sorted(n0, key);
            if pos > 0 {
                assert(n0.children@[pos - 1].wf_at(n0.child_lo(pos - 1, lo), n0.child_hi(pos - 1, hi), (h - 1) as nat));
                assert(n0.children@[pos - 1].num_items == n0.children@[pos - 1].items@.len());
            }
            if pos + 1 < n0.children@.len() {
                assert(n0.children@[pos + 1].wf_at(n0.child_lo(pos + 1, lo), n0.child_hi(pos + 1, hi), (h - 1) as nat));
                assert(n0.children@[pos + 1].num_items == n0.children@[pos + 1].items@.len());
            }
        }
        let ghost q: int;
        if pos > 0 && node.children[pos - 1].num_items > MIN_ITEMS {
            proof {
                assert(n0.children@[pos - 1].wf_at(n0.child_lo(pos - 1, lo), n0.child_hi(pos - 1, hi), (h - 1) as nat));
            }
            node.borrow_from_prev(pos, Ghost(lo), Ghost(hi), Ghost(h));
            proof {
                q = pos as int;
                assert(splits_at(node.items@, key, q));
            }
        } else if pos + 1 < node.children.len() && node.children[pos + 1].num_items > MIN_ITEMS {
            proof {
                assert(n0.children@[pos + 1].wf_at(n0.child_lo(pos + 1, lo), n0.child_hi(pos + 1, hi), (h - 1) as nat));
            }
            node.borrow_from_next(pos, Ghost(lo), Ghost(hi), Ghost(h));
            proof {
                q = pos as int;
                assert(splits_at(node.items@, key, q));
            }
        } else if pos > 0 {
            node.merge_children(pos - 1, Ghost(lo), Ghost(hi), Ghost(h));
            proof {
                q = pos - 1;
                assert(splits_at(node.items@, key, q)) by {
                    assert forall|j: int| 0 <= j < node.items@.len() implies #[trigger] node.items@[j] == (if j < pos - 1 {
                        s0[j]
                    } else {
                        s0[j + 1]
                    }) by {}
                }
                if q < node.items@.len() {
                    assert(node.items@[q] == s0[pos as int]);
                }
            }
        } else {
            node.merge_children(pos, Ghost(lo), Ghost(hi), Ghost(h));
            proof {
                q = 0;
                assert(splits_at(node.items@, key, q));
                if q < node.items@.len() {
                    assert(node.items@[q] == s0[1]);
                }
            }
        }
        proof {
            lemma_count_less_at(node.items@, key, q);
        }
    }
}

impl View for Btree {
    type V = Map<i32, Seq<char>>;

    /// The keys of the tree, each with its value.
    open spec fn view(&self) -> Map<i32, Seq<char>> {
        Map::new(|k: i32| self.get(k) is Some, |k: i32| self.get(k)->0)
    }
}

} // verus!
