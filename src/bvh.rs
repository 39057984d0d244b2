//! Shape of a bounding-volume hierarchy, kept as an arena of nodes.
//!
//! Objects are named by their index in the scene; each node names two children,
//! each an object or an earlier node of the arena, so the last node is the root.
//! Box geometry stays with the caller: building reads only each object's minimum
//! box corner, as order-preserving integer keys, and the search asks the caller
//! whether a node's box and an object are hit.
use vstd::prelude::*;
use crate::nearest::{
    asked, consistent, is_nearest, key_of, lemma_nearer_of_union, lemma_nearest_key_unique, lemma_single,
    nearer,
};
use crate::random::random_int;
use vstd::arithmetic::power2::{lemma_pow2_unfold, pow2};

verus! {

broadcast use vstd::seq_lib::group_to_multiset_ensures;

/// One child of a node: an object of the scene, or another node of the arena.
#[derive(Clone, Copy, Debug, PartialEq, Eq, Structural)]
pub enum BvhChild {
    Object(usize),
    Node(usize),
}

/// A node: its two children.
#[derive(Clone, Copy, Debug, PartialEq, Eq, Structural)]
pub struct BvhLink {
    pub left: BvhChild,
    pub right: BvhChild,
}

/// The minimum corner of an object's bounding box, one order-preserving key per axis.
#[derive(Clone, Copy, Debug, PartialEq, Eq, Structural)]
pub struct BoxKey {
    pub x: u64,
    pub y: u64,
    pub z: u64,
}

/// The key of `k` on axis `axis` (0, 1 or 2).
pub open spec fn key_on(k: BoxKey, axis: int) -> u64 {
    if axis == 0 {
        k.x
    } else if axis == 1 {
        k.y
    } else {
        k.z
    }
}

/// The key of `k` on axis `axis` (0, 1 or 2).
fn axis_key(k: &BoxKey, axis: i32) -> (r: u64)
    ensures
        r == key_on(*k, axis as int),
{
    if axis == 0 {
        k.x
    } else if axis == 1 {
        k.y
    } else {
        k.z
    }
}

/// A child of node `i` names an object below `n` or a node before `i`.
pub open spec fn child_ok(c: BvhChild, i: int, n: int) -> bool {
    match c {
        BvhChild::Object(o) => o < n,
        BvhChild::Node(j) => j < i,
    }
}

/// Every node of `nodes` has children that are objects below `n` or earlier nodes.
pub open spec fn links_ok(nodes: Seq<BvhLink>, n: int) -> bool {
    forall|i: int|
        0 <= i < nodes.len() ==> child_ok(#[trigger] nodes[i].left, i, n) && child_ok(
            nodes[i].right,
            i,
            n,
        )
}

/// The objects reachable from node `i`.
pub open spec fn objects_under(nodes: Seq<BvhLink>, i: int) -> Set<usize>
    decreases i,
{
    if i < 0 || i >= nodes.len() {
        Set::empty()
    } else {
        let l = match nodes[i].left {
            BvhChild::Object(o) => set![o],
            BvhChild::Node(j) => if j < i {
                objects_under(nodes, j as int)
            } else {
                Set::empty()
            },
        };
        let r = match nodes[i].right {
            BvhChild::Object(o) => set![o],
            BvhChild::Node(j) => if j < i {
                objects_under(nodes, j as int)
            } else {
                Set::empty()
            },
        };
        l.union(r)
    }
}

/// The objects reachable from a child of node `i`.
pub open spec fn objects_of_child(nodes: Seq<BvhLink>, c: BvhChild, i: int) -> Set<usize> {
    match c {
        BvhChild::Object(o) => set![o],
        BvhChild::Node(j) => if j < i {
            objects_under(nodes, j as int)
        } else {
            Set::empty()
        },
    }
}

/// The objects `0..n`.
pub open spec fn first_objects(n: int) -> Set<usize> {
    Set::new(|o: usize| o < n)
}

/// On axis `axis`, every object of `a` has a key no greater than every object of `b`.
pub open spec fn separated(keys: Seq<BoxKey>, a: Set<usize>, b: Set<usize>, axis: int) -> bool {
    forall|x: usize, y: usize|
        #![trigger a.contains(x), b.contains(y)]
        a.contains(x) && b.contains(y) ==> key_on(keys[x as int], axis) <= key_on(
            keys[y as int],
            axis,
        )
}

/// Node `i` is a median split: either both children are objects, or both are nodes,
/// the node reaches at least three objects, the left child reaches the first half of
/// them (rounded down) and the right child the rest, and on some axis the left ones
/// come no later than the right ones.
pub open spec fn split_ok(nodes: Seq<BvhLink>, keys: Seq<BoxKey>, i: int) -> bool {
    match nodes[i].left {
        BvhChild::Object(_) => nodes[i].right is Object,
        BvhChild::Node(l) => match nodes[i].right {
            BvhChild::Object(_) => false,
            BvhChild::Node(r) => {
                let n = objects_under(nodes, i).len();
                let below_l = objects_under(nodes, l as int);
                let below_r = objects_under(nodes, r as int);
                &&& n >= 3
                &&& below_l.len() == n / 2
                &&& below_r.len() == n - n / 2
                &&& exists|axis: int| 0 <= axis < 3 && #[trigger] separated(keys, below_l, below_r, axis)
            },
        },
    }
}

/// Every node of `nodes` is a median split.
pub open spec fn median_splits(nodes: Seq<BvhLink>, keys: Seq<BoxKey>) -> bool {
    forall|i: int| 0 <= i < nodes.len() ==> #[trigger] split_ok(nodes, keys, i)
}

/// Nodes beyond `i` do not change what node `i` reaches.
proof fn lemma_under_prefix(a: Seq<BvhLink>, b: Seq<BvhLink>, i: int)
    requires
        0 <= i < a.len() <= b.len(),
        b.subrange(0, a.len() as int) == a,
    ensures
        objects_under(b, i) == objects_under(a, i),
    decreases i,
{
    assert(b[i] == a[i]);
    if let BvhChild::Node(j) = a[i].left {
        if j < i {
            lemma_under_prefix(a, b, j as int);
        }
    }
    if let BvhChild::Node(j) = a[i].right {
        if j < i {
            lemma_under_prefix(a, b, j as int);
        }
    }
}

/// Nodes beyond `i` do not change whether node `i` is a median split.
proof fn lemma_split_prefix(a: Seq<BvhLink>, b: Seq<BvhLink>, keys: Seq<BoxKey>, n: int, i: int)
    requires
        0 <= i < a.len() <= b.len(),
        b.subrange(0, a.len() as int) == a,
        links_ok(a, n),
    ensures
        split_ok(b, keys, i) == split_ok(a, keys, i),
{
    assert(b[i] == a[i]);
    assert(child_ok(a[i].left, i, n));
    assert(child_ok(a[i].right, i, n));
    lemma_under_prefix(a, b, i);
    if let BvhChild::Node(l) = a[i].left {
        lemma_under_prefix(a, b, l as int);
    }
    if let BvhChild::Node(r) = a[i].right {
        lemma_under_prefix(a, b, r as int);
    }
}

/// Extending the arena keeps every earlier node a median split.
proof fn lemma_splits_prefix(a: Seq<BvhLink>, b: Seq<BvhLink>, keys: Seq<BoxKey>, n: int)
    requires
        a.len() <= b.len(),
        b.subrange(0, a.len() as int) == a,
        links_ok(a, n),
        median_splits(a, keys),
    ensures
        forall|i: int| 0 <= i < a.len() ==> #[trigger] split_ok(b, keys, i),
{
    assert forall|i: int| 0 <= i < a.len() implies #[trigger] split_ok(b, keys, i) by {
        lemma_split_prefix(a, b, keys, n, i);
    }
}

/// Sorts `order` by the key of each object's box on `axis`, keeping equal keys in
/// their order.
fn sort_on_axis(keys: &Vec<BoxKey>, order: &mut Vec<usize>, axis: i32)
    requires
        0 <= axis <= 2,
        forall|k: int| 0 <= k < old(order).len() ==> #[trigger] old(order)[k] < keys.len(),
    ensures
        final(order).len() == old(order).len(),
        final(order)@.to_multiset() == old(order)@.to_multiset(),
        forall|k: int| 0 <= k < final(order).len() ==> #[trigger] final(order)[k] < keys.len(),
        forall|a: int, b: int|
            0 <= a < b < final(order).len() ==> key_on(keys[final(order)[a] as int], axis as int)
                <= key_on(keys[final(order)[b] as int], axis as int),
{
    let ghost start = order@;
    let n = order.len();
    let mut i: usize = 1;
    while i < n
        invariant
            n == order.len(),
            1 <= i || n == 0,
            i <= n || n == 0,
            order@.to_multiset() == start.to_multiset(),
            forall|k: int| 0 <= k < order.len() ==> #[trigger] order[k] < keys.len(),
            forall|a: int, b: int|
                0 <= a < b < i && b < n ==> key_on(keys[order[a] as int], axis as int) <= key_on(
                    keys[order[b] as int],
                    axis as int,
                ),
        decreases n - i,
    {
        let mut j: usize = i;
        let mut moving: bool = axis_key(&keys[order[j - 1]], axis) > axis_key(
            &keys[order[j]],
            axis,
        );
        while moving
            invariant
                n == order.len(),
                0 <= j <= i < n,
                order@.to_multiset() == start.to_multiset(),
                forall|k: int| 0 <= k < order.len() ==> #[trigger] order[k] < keys.len(),
                moving ==> j > 0 && key_on(keys[order[j - 1] as int], axis as int) > key_on(
                    keys[order[j as int] as int],
                    axis as int,
                ),
                !moving ==> j == 0 || key_on(keys[order[j - 1] as int], axis as int) <= key_on(
                    keys[order[j as int] as int],
                    axis as int,
                ),
                forall|a: int, b: int|
                    0 <= a < b <= i && a != j && b != j ==> key_on(keys[order[a] as int], axis as int)
                        <= key_on(keys[order[b] as int], axis as int),
                forall|a: int, b: int|
                    0 <= a < j < b <= i ==> key_on(keys[order[a] as int], axis as int) <= key_on(
                        keys[order[b] as int],
                        axis as int,
                    ),
                forall|b: int|
                    j < b <= i ==> key_on(keys[order[j as int] as int], axis as int) < key_on(
                        keys[order[b] as int],
                        axis as int,
                    ),
            decreases j,
        {
            let x = order[j - 1];
            let y = order[j];
            let ghost before = order@;
            order.set(j - 1, y);
            order.set(j, x);
            proof {
                let mid = before.update(j - 1, y);
                assert(order@ == mid.update(j as int, x));
                assert(mid.to_multiset() == before.to_multiset().insert(y).remove(x));
                assert(order@.to_multiset() == mid.to_multiset().insert(x).remove(y));
                assert(order@.to_multiset() =~= before.to_multiset());
            }
            j = j - 1;
            if j > 0 {
                moving = axis_key(&keys[order[j - 1]], axis) > axis_key(&keys[order[j]], axis);
            } else {
                moving = false;
            }
        }
        i = i + 1;
    }
}

/// Appends to `nodes` the hierarchy over the objects of `order` and returns its root.
fn build_range(keys: &Vec<BoxKey>, order: Vec<usize>, nodes: &mut Vec<BvhLink>) -> (r: usize)
    requires
        order.len() >= 1,
        forall|k: int| 0 <= k < order.len() ==> #[trigger] order[k] < keys.len(),
        order@.no_duplicates(),
        links_ok(old(nodes)@, keys.len() as int),
        median_splits(old(nodes)@, keys@),
    ensures
        final(nodes).len() > old(nodes).len(),
        final(nodes)@.subrange(0, old(nodes).len() as int) == old(nodes)@,
        links_ok(final(nodes)@, keys.len() as int),
        median_splits(final(nodes)@, keys@),
        r == final(nodes).len() - 1,
        objects_under(final(nodes)@, r as int) == order@.to_set(),
    decreases order.len(),
{
    let ghost n = keys.len() as int;
    let ghost first = nodes@;
    let m = order.len();
    if m == 1 {
        let o = order[0];
        nodes.push(BvhLink { left: BvhChild::Object(o), right: BvhChild::Object(o) });
        proof {
            assert(order@.to_set() =~= set![o]);
            assert(nodes@.subrange(0, first.len() as int) =~= first);
            assert(links_ok(nodes@, n));
            assert(set![o].union(set![o]) =~= set![o]);
            lemma_splits_prefix(first, nodes@, keys@, n);
            assert(split_ok(nodes@, keys@, first.len() as int));
        }
    } else if m == 2 {
        let a = order[0];
        let b = order[1];
        nodes.push(BvhLink { left: BvhChild::Object(a), right: BvhChild::Object(b) });
        proof {
            assert(order@.to_set() =~= set![a].union(set![b])) by {
                assert(order@[0] == a && order@[1] == b);
            }
            assert(nodes@.subrange(0, first.len() as int) =~= first);
            assert(links_ok(nodes@, n));
            lemma_splits_prefix(first, nodes@, keys@, n);
            assert(split_ok(nodes@, keys@, first.len() as int));
        }
    } else {
        let axis = random_int(0, 2);
        let mut sorted = order;
        sort_on_axis(keys, &mut sorted, axis);
        let ghost all = sorted@;
        let mid = m / 2;
        let mut left: Vec<usize> = Vec::new();
        let mut right: Vec<usize> = Vec::new();
        let mut k: usize = 0;
        while k < m
            invariant
                m == sorted.len(),
                mid == m / 2,
                k <= m,
                sorted@ == all,
                k <= mid ==> left@ == all.subrange(0, k as int) && right@.len() == 0,
                k > mid ==> left@ == all.subrange(0, mid as int) && right@ == all.subrange(
                    mid as int,
                    k as int,
                ),
            decreases m - k,
        {
            if k < mid {
                left.push(sorted[k]);
            } else {
                right.push(sorted[k]);
            }
            proof {
                if k < mid {
                    assert(left@ =~= all.subrange(0, k + 1));
                } else if k == mid {
                    assert(right@ =~= all.subrange(mid as int, k + 1));
                } else {
                    assert(right@ =~= all.subrange(mid as int, k + 1));
                }
            }
            k = k + 1;
        }
        proof {
            assert(left@ =~= all.subrange(0, mid as int));
            assert(all =~= left@ + right@);
            vstd::seq_lib::seq_to_set_distributes_over_add(left@, right@);
            assert forall|x: usize| all.contains(x) <==> order@.contains(x) by {
                assert(all.contains(x) <==> all.to_multiset().count(x) > 0);
                assert(order@.contains(x) <==> order@.to_multiset().count(x) > 0);
            }
            assert(all.to_set() =~= order@.to_set());
            assert forall|q: int| 0 <= q < left.len() implies #[trigger] left[q] < keys.len() by {
                assert(left[q] == all[q]);
            }
            assert forall|q: int| 0 <= q < right.len() implies #[trigger] right[q] < keys.len() by {
                assert(right[q] == all[mid + q]);
            }
            order@.lemma_multiset_has_no_duplicates();
            all.lemma_multiset_has_no_duplicates_conv();
            assert(left@.no_duplicates());
            assert(right@.no_duplicates());
        }
        let l = build_range(keys, left, nodes);
        let ghost after_left = nodes@;
        let r = build_range(keys, right, nodes);
        let ghost after_right = nodes@;
        nodes.push(BvhLink { left: BvhChild::Node(l), right: BvhChild::Node(r) });
        proof {
            assert(after_right.subrange(0, after_left.len() as int) == after_left);
            lemma_under_prefix(after_left, after_right, l as int);
            assert(nodes@.subrange(0, after_right.len() as int) =~= after_right);
            assert(nodes@.subrange(0, after_left.len() as int) =~= after_left);
            lemma_under_prefix(after_left, nodes@, l as int);
            lemma_under_prefix(after_right, nodes@, r as int);
            assert(nodes@.subrange(0, first.len() as int) =~= first) by {
                assert(after_left.subrange(0, first.len() as int) == first);
                assert(forall|q: int| 0 <= q < first.len() ==> nodes@[q] == after_left[q]);
            }
            let top = nodes.len() - 1;
            assert(nodes@[top as int] == BvhLink { left: BvhChild::Node(l), right: BvhChild::Node(r) });
            lemma_splits_prefix(after_right, nodes@, keys@, n);
            left@.unique_seq_to_set();
            right@.unique_seq_to_set();
            all.unique_seq_to_set();
            let set_l = left@.to_set();
            let set_r = right@.to_set();
            assert(objects_under(nodes@, top as int) == set_l.union(set_r));
            assert(set_l.union(set_r) == all.to_set());
            assert(separated(keys@, set_l, set_r, axis as int)) by {
                assert forall|x: usize, y: usize|
                    #![trigger set_l.contains(x), set_r.contains(y)]
                    set_l.contains(x) && set_r.contains(y) implies key_on(keys@[x as int], axis as int)
                    <= key_on(keys@[y as int], axis as int) by {
                    let p = choose|p: int| 0 <= p < left@.len() && left@[p] == x;
                    let q = choose|q: int| 0 <= q < right@.len() && right@[q] == y;
                    assert(all[p] == x);
                    assert(all[mid + q] == y);
                }
            }
            assert(split_ok(nodes@, keys@, top as int));
            assert(links_ok(nodes@, n)) by {
                assert forall|i: int| 0 <= i < nodes@.len() implies child_ok(
                    #[trigger] nodes@[i].left,
                    i,
                    n,
                ) && child_ok(nodes@[i].right, i, n) by {
                    if i < after_right.len() {
                        assert(nodes@[i] == after_right[i]);
                    }
                }
            }
        }
    }
    nodes.len() - 1
}

/// A bounding-volume hierarchy over the objects `0..object_count`; the root is the last node.
pub struct BvhLayout {
    pub nodes: Vec<BvhLink>,
    pub object_count: usize,
}

impl BvhLayout {
    /// Every node names objects of the scene or earlier nodes, and there is a root.
    pub open spec fn wf(&self) -> bool {
        &&& self.nodes.len() >= 1
        &&& links_ok(self.nodes@, self.object_count as int)
    }

    /// The objects reachable from the root.
    pub open spec fn objects(&self) -> Set<usize> {
        objects_under(self.nodes@, self.nodes.len() - 1)
    }

    /// A box test that says "missed" for a node only when no object below it can be hit.
    pub open spec fn prunes_soundly<H, F: Fn(usize) -> Option<(u64, H)>, B: Fn(usize) -> bool>(
        &self,
        hit_object: F,
        hit_box: B,
    ) -> bool {
        forall|j: usize, o: usize, h: Option<(u64, H)>|
            #![trigger hit_box.ensures((j,), false), hit_object.ensures((o,), h)]
            j < self.nodes.len() && hit_box.ensures((j,), false) && objects_under(
                self.nodes@,
                j as int,
            ).contains(o) && hit_object.ensures((o,), h) ==> h is None
    }

    /// Object `o` was asked about, or lies below a node whose box test reported a miss.
    pub open spec fn searched<H, F: Fn(usize) -> Option<(u64, H)>, B: Fn(usize) -> bool>(
        &self,
        hit_object: F,
        hit_box: B,
        o: usize,
    ) -> bool {
        asked(hit_object, o) || exists|j: usize|
            j < self.nodes.len() && #[trigger] hit_box.ensures((j,), false) && objects_under(
                self.nodes@,
                j as int,
            ).contains(o)
    }

    /// Builds the hierarchy over the objects whose box corners are `keys`, object `i`
    /// having key `keys[i]`. One object fills both children of a node; two objects are
    /// its children; more are sorted on an axis drawn at random and split at the middle,
    /// the first `n / 2` to the left, and each half is built in turn.
    pub fn new(keys: &Vec<BoxKey>) -> (r: Self)
        requires
            keys.len() >= 1,
        ensures
            r.wf(),
            r.object_count == keys.len(),
            r.objects() == first_objects(keys.len() as int),
            median_splits(r.nodes@, keys@),
    {
        let n = keys.len();
        let mut order: Vec<usize> = Vec::new();
        let mut i: usize = 0;
        while i < n
            invariant
                i <= n,
                order@ == Seq::new(i as nat, |k: int| k as usize),
            decreases n - i,
        {
            order.push(i);
            proof {
                assert(order@ =~= Seq::new((i + 1) as nat, |k: int| k as usize));
            }
            i = i + 1;
        }
        let mut nodes: Vec<BvhLink> = Vec::new();
        proof {
            assert(order@.no_duplicates());
        }
        let root = build_range(keys, order, &mut nodes);
        proof {
            assert forall|o: usize| order@.contains(o) <==> o < n by {
                if o < n {
                    assert(order@[o as int] == o);
                }
            }
            assert(order@.to_set() =~= first_objects(n as int));
        }
        BvhLayout { nodes, object_count: n }
    }

    /// The index of the root node.
    pub fn root(&self) -> (r: usize)
        requires
            self.wf(),
        ensures
            r == self.nodes.len() - 1,
    {
        self.nodes.len() - 1
    }

    /// The nearest hit among the objects below node `j`.
    fn nearest_below<H, F: Fn(usize) -> Option<(u64, H)>, B: Fn(usize) -> bool>(
        &self,
        j: usize,
        hit_object: &F,
        hit_box: &B,
    ) -> (r: Option<(u64, H)>)
        requires
            self.wf(),
            j < self.nodes.len(),
            forall|o: usize| o < self.object_count ==> #[trigger] hit_object.requires((o,)),
            forall|i: usize| i < self.nodes.len() ==> #[trigger] hit_box.requires((i,)),
            consistent(*hit_object),
            self.prunes_soundly(*hit_object, *hit_box),
        ensures
            is_nearest(*hit_object, objects_under(self.nodes@, j as int), r),
            forall|o: usize|
                objects_under(self.nodes@, j as int).contains(o) ==> #[trigger] self.searched(
                    *hit_object,
                    *hit_box,
                    o,
                ),
        decreases j,
    {
        let ghost nodes = self.nodes@;
        let box_hit = hit_box(j);
        if !box_hit {
            assert(hit_box.ensures((j,), false));
            return None;
        }
        let link = self.nodes[j];
        assert(child_ok(nodes[j as int].left, j as int, self.object_count as int));
        assert(child_ok(nodes[j as int].right, j as int, self.object_count as int));
        let a = match link.left {
            BvhChild::Object(o) => {
                let h = hit_object(o);
                proof {
                    lemma_single(*hit_object, o, h);
                    assert(hit_object.ensures((o,), h));
                }
                h
            },
            BvhChild::Node(c) => self.nearest_below(c, hit_object, hit_box),
        };
        let b = match link.right {
            BvhChild::Object(o) => {
                let h = hit_object(o);
                proof {
                    lemma_single(*hit_object, o, h);
                    assert(hit_object.ensures((o,), h));
                }
                h
            },
            BvhChild::Node(c) => self.nearest_below(c, hit_object, hit_box),
        };
        proof {
            let sa = objects_of_child(nodes, link.left, j as int);
            let sb = objects_of_child(nodes, link.right, j as int);
            assert(objects_under(nodes, j as int) == sa.union(sb));
            lemma_nearer_of_union(*hit_object, sa, sb, a, b);
        }
        nearer(a, b)
    }

    /// The nearest hit among all objects. Node `j`'s box is tested first, and its
    /// children only where `hit_box(j)` holds; both children are then searched and the
    /// nearer of their hits is kept, the left one on equal keys.
    pub fn nearest_hit<H, F: Fn(usize) -> Option<(u64, H)>, B: Fn(usize) -> bool>(
        &self,
        hit_object: &F,
        hit_box: &B,
    ) -> (r: Option<(u64, H)>)
        requires
            self.wf(),
            forall|o: usize| o < self.object_count ==> #[trigger] hit_object.requires((o,)),
            forall|i: usize| i < self.nodes.len() ==> #[trigger] hit_box.requires((i,)),
            consistent(*hit_object),
            self.prunes_soundly(*hit_object, *hit_box),
        ensures
            is_nearest(*hit_object, self.objects(), r),
            forall|o: usize| self.objects().contains(o) ==> #[trigger] self.searched(
                *hit_object,
                *hit_box,
                o,
            ),
    {
        self.nearest_below(self.nodes.len() - 1, hit_object, hit_box)
    }
}

/// The number of nodes on the longest path from node `i` down to an object.
pub open spec fn height(nodes: Seq<BvhLink>, i: int) -> nat
    decreases i,
{
    if i < 0 || i >= nodes.len() {
        0
    } else {
        let hl = match nodes[i].left {
            BvhChild::Object(_) => 0,
            BvhChild::Node(j) => if j < i {
                height(nodes, j as int)
            } else {
                0
            },
        };
        let hr = match nodes[i].right {
            BvhChild::Object(_) => 0,
            BvhChild::Node(j) => if j < i {
                height(nodes, j as int)
            } else {
                0
            },
        };
        1 + if hl >= hr {
            hl
        } else {
            hr
        }
    }
}

/// In a hierarchy of median splits, a node that reaches `n` objects lies at most
/// about log2(n) nodes above any object: a search descends through at most that many
/// boxes. Precisely, a node of height `h > 1` reaches more than `2^(h-1)` objects.
pub proof fn lemma_height_logarithmic(nodes: Seq<BvhLink>, keys: Seq<BoxKey>, n: int, i: int)
    requires
        links_ok(nodes, n),
        median_splits(nodes, keys),
        0 <= i < nodes.len(),
    ensures
        height(nodes, i) >= 1,
        height(nodes, i) == 1 || pow2((height(nodes, i) - 1) as nat) < objects_under(nodes, i).len(),
    decreases i,
{
    assert(split_ok(nodes, keys, i));
    assert(child_ok(nodes[i].left, i, n));
    assert(child_ok(nodes[i].right, i, n));
    if let BvhChild::Node(l) = nodes[i].left {
        if let BvhChild::Node(r) = nodes[i].right {
            lemma_height_logarithmic(nodes, keys, n, l as int);
            lemma_height_logarithmic(nodes, keys, n, r as int);
            let size = objects_under(nodes, i).len();
            let hl = height(nodes, l as int);
            let hr = height(nodes, r as int);
            let (hc, m) = if hl >= hr {
                (hl, objects_under(nodes, l as int).len())
            } else {
                (hr, objects_under(nodes, r as int).len())
            };
            assert(height(nodes, i) == 1 + hc);
            assert(m <= size - size / 2);
            lemma_pow2_unfold(hc);
            if hc == 1 {
                assert(pow2(0) == 1) by {
                    vstd::arithmetic::power2::lemma2_to64();
                }
            }
        }
    }
}

/// Searching a hierarchy built over objects `0..n` finds a hit at the same key as
/// scanning all of them: pruning by boxes loses no nearest hit.
pub proof fn lemma_hierarchy_matches_scan<H, F: Fn(usize) -> Option<(u64, H)>>(
    layout: BvhLayout,
    hit_object: F,
    from_tree: Option<(u64, H)>,
    from_scan: Option<(u64, H)>,
)
    requires
        layout.wf(),
        layout.objects() == first_objects(layout.object_count as int),
        consistent(hit_object),
        is_nearest(hit_object, layout.objects(), from_tree),
        is_nearest(hit_object, first_objects(layout.object_count as int), from_scan),
    ensures
        key_of(from_tree) == key_of(from_scan),
{
    lemma_nearest_key_unique(hit_object, layout.objects(), from_tree, from_scan);
}

/// Hierarchies built over two orderings of the same objects find their nearest hits
/// at the same key. Object `o` of the second ordering is object `perm[o]` of the first,
/// so `hit_second` reports for `o` what `hit_first` reports for `perm[o]`.
pub proof fn lemma_permutation_invariant<
    H,
    F: Fn(usize) -> Option<(u64, H)>,
    G: Fn(usize) -> Option<(u64, H)>,
>(
    first: BvhLayout,
    second: BvhLayout,
    perm: Seq<usize>,
    hit_first: F,
    hit_second: G,
    r_first: Option<(u64, H)>,
    r_second: Option<(u64, H)>,
)
    requires
        first.wf(),
        second.wf(),
        first.object_count == perm.len(),
        second.object_count == perm.len(),
        first.objects() == first_objects(perm.len() as int),
        second.objects() == first_objects(perm.len() as int),
        forall|i: int| 0 <= i < perm.len() ==> #[trigger] perm[i] < perm.len(),
        forall|x: usize| x < perm.len() ==> #[trigger] perm.contains(x),
        forall|o: usize, h: Option<(u64, H)>|
            o < perm.len() ==> (#[trigger] hit_second.ensures((o,), h) <==> hit_first.ensures(
                (perm[o as int],),
                h,
            )),
        consistent(hit_first),
        is_nearest(hit_first, first.objects(), r_first),
        is_nearest(hit_second, second.objects(), r_second),
    ensures
        key_of(r_first) == key_of(r_second),
{
    let all = first_objects(perm.len() as int);
    assert(is_nearest(hit_first, all, r_second)) by {
        match r_second {
            None => {
                assert forall|o: usize, h: Option<(u64, H)>|
                    all.contains(o) && #[trigger] hit_first.ensures((o,), h) implies h is None by {
                    assert(perm.contains(o));
                    let i = choose|i: int| 0 <= i < perm.len() && perm[i] == o;
                    assert(hit_second.ensures((i as usize,), h));
                }
            },
            Some((k, _)) => {
                let i = choose|i: usize| all.contains(i) && #[trigger] hit_second.ensures((i,), r_second);
                assert(hit_first.ensures((perm[i as int],), r_second));
                assert(all.contains(perm[i as int]));
                assert forall|o: usize, h: Option<(u64, H)>|
                    all.contains(o) && #[trigger] hit_first.ensures((o,), h) && h is Some implies k
                    <= h.unwrap().0 by {
                    assert(perm.contains(o));
                    let i2 = choose|i2: int| 0 <= i2 < perm.len() && perm[i2] == o;
                    assert(hit_second.ensures((i2 as usize,), h));
                    assert(all.contains(i2 as usize));
                }
            },
        }
    }
    lemma_nearest_key_unique(hit_first, all, r_first, r_second);
}

} // verus!
