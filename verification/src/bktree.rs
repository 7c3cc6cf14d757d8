use crate::metric::{
    distance, lemma_distance_bound, lemma_distance_symmetric, lemma_distance_triangle,
    lemma_distance_zero,
};
use std::collections::HashMap;
use vstd::prelude::*;
use vstd::set_lib::{lemma_int_range, lemma_len_subset, set_int_range};
use vstd::std_specs::hash::spec_hash_map_iter;
use vstd::std_specs::iter::IteratorSpec;

verus! {

broadcast use vstd::std_specs::hash::group_hash_axioms;

/// Hamming distance between `a` and `b`.
pub fn hamming(a: u64, b: u64) -> (d: u32)
    ensures
        d == distance(a, b),
        d <= 64,
{
    proof {
        lemma_distance_bound(a, b);
    }
    (a ^ b).count_ones()
}

/// The stored values after `x` was inserted: a value that is there already
/// is not stored again.
pub open spec fn inserted(stored: Seq<u64>, x: u64) -> Seq<u64> {
    if stored.contains(x) {
        stored
    } else {
        stored.push(x)
    }
}

/// Those of the stored values that lie within `radius` of `x`.
pub open spec fn within(stored: Seq<u64>, x: u64, radius: u32) -> Set<u64> {
    Set::new(|v: u64| stored.contains(v) && distance(x, v) <= radius)
}

/// A value that was inserted lies within radius zero of itself.
pub proof fn lemma_finds_inserted(stored: Seq<u64>, x: u64)
    ensures
        within(inserted(stored, x), x, 0).contains(x),
{
    lemma_distance_zero(x, x);
    if !stored.contains(x) {
        assert(stored.push(x)[stored.len() as int] == x);
    }
}

/// The stored values after each of `values` was inserted in turn into an
/// empty index.
pub open spec fn inserted_all(values: Seq<u64>) -> Seq<u64>
    decreases values.len(),
{
    if values.len() == 0 {
        Seq::empty()
    } else {
        inserted(inserted_all(values.drop_last()), values.last())
    }
}

/// What is stored after a run of insertions is what was inserted.
pub proof fn lemma_inserted_all(values: Seq<u64>, v: u64)
    ensures
        inserted_all(values).contains(v) <==> values.contains(v),
    decreases values.len(),
{
    if values.len() > 0 {
        let front = values.drop_last();
        let stored = inserted_all(front);
        lemma_inserted_all(front, v);
        if values.contains(v) {
            let i = choose|i: int| 0 <= i < values.len() && values[i] == v;
            if i < front.len() {
                assert(front[i] == v);
            }
        }
        if front.contains(v) {
            let i = choose|i: int| 0 <= i < front.len() && front[i] == v;
            assert(values[i] == v);
        }
        if stored.contains(v) && !stored.contains(values.last()) {
            let i = choose|i: int| 0 <= i < stored.len() && stored[i] == v;
            assert(stored.push(values.last())[i] == v);
        }
        if !stored.contains(values.last()) {
            assert(stored.push(values.last())[stored.len() as int] == values.last());
        }
        assert(values[values.len() - 1] == values.last());
    }
}

/// After any run of insertions, the values within `radius` of `x` are those
/// of the inserted values that a scan of them all would keep: none is
/// missing and none is added.
pub proof fn lemma_within_is_filter(values: Seq<u64>, x: u64, radius: u32)
    ensures
        within(inserted_all(values), x, radius) == values.to_set().filter(
            |v: u64| distance(x, v) <= radius,
        ),
{
    let kept = values.to_set().filter(|v: u64| distance(x, v) <= radius);
    assert forall|v: u64| within(inserted_all(values), x, radius).contains(v) <==> kept.contains(
        v,
    ) by {
        lemma_inserted_all(values, v);
    }
    assert(within(inserted_all(values), x, radius) =~= kept);
}

/// A radius of 64 or more leaves no stored value out.
pub proof fn lemma_unbounded_radius(stored: Seq<u64>, x: u64, radius: u32)
    requires
        radius >= 64,
    ensures
        within(stored, x, radius) == stored.to_set(),
{
    assert forall|v: u64| within(stored, x, radius).contains(v) <==> stored.to_set().contains(v) by {
        lemma_distance_bound(x, v);
    }
    assert(within(stored, x, radius) =~= stored.to_set());
}

/// A node of the arena: a stored value and, for each distance, the position
/// of the child reached by that distance.
struct BKNode {
    val: u64,
    children: HashMap<u32, usize>,
}

/// BK-tree over 64-bit values under the Hamming distance.
///
/// Nodes live in an append-only arena and refer to each other by position.
pub struct BKTreeInner {
    nodes: Vec<BKNode>,
    parents: Ghost<Seq<int>>,
}

/// `a` lies on the path from the root to `k` (`k` itself included), where
/// `parents[k]` is the position of the parent of node `k`.
spec fn on_path(parents: Seq<int>, a: int, k: int) -> bool
    decreases k,
{
    a == k || (0 < k < parents.len() && 0 <= parents[k] < k && on_path(parents, a, parents[k]))
}

/// A node lies only on paths to nodes behind it in the arena.
proof fn lemma_on_path_le(parents: Seq<int>, a: int, k: int)
    requires
        on_path(parents, a, k),
    ensures
        a <= k,
    decreases k,
{
    if a != k {
        lemma_on_path_le(parents, a, parents[k]);
    }
}

/// The root lies on the path to every node.
proof fn lemma_on_path_root(parents: Seq<int>, k: int)
    requires
        0 <= k < parents.len(),
        forall|j: int| 0 < j < parents.len() ==> 0 <= #[trigger] parents[j] < j,
    ensures
        on_path(parents, 0, k),
    decreases k,
{
    if k != 0 {
        lemma_on_path_root(parents, parents[k]);
    }
}

/// Appending a node changes no path to an earlier node.
proof fn lemma_on_path_push(parents: Seq<int>, p: int, a: int, k: int)
    requires
        k < parents.len(),
    ensures
        on_path(parents.push(p), a, k) == on_path(parents, a, k),
    decreases k,
{
    if a != k && 0 < k && 0 <= parents[k] < k {
        lemma_on_path_push(parents, p, a, parents[k]);
    }
}

/// The parent of a node on a path lies on that path too.
proof fn lemma_on_path_up(parents: Seq<int>, c: int, t: int)
    requires
        on_path(parents, c, t),
        0 < c < parents.len(),
        0 <= parents[c] < c,
    ensures
        on_path(parents, parents[c], t),
    decreases t,
{
    if c != t {
        lemma_on_path_up(parents, c, parents[t]);
    } else {
        assert(on_path(parents, parents[c], parents[c]));
    }
}

impl View for BKTreeInner {
    type V = Seq<u64>;

    /// The stored values, in the order in which they were inserted.
    closed spec fn view(&self) -> Seq<u64> {
        Seq::new(self.nodes@.len(), |i: int| self.nodes@[i].val)
    }
}

impl BKTreeInner {
    spec fn val(&self, i: int) -> u64 {
        self.nodes@[i].val
    }

    spec fn kids(&self, i: int) -> Map<u32, usize> {
        self.nodes@[i].children@
    }

    /// The child of `a` keyed by the distance from `target` to the value of
    /// `a` exists and lies on the path to `k`.
    spec fn routes(&self, a: int, target: u64, k: int) -> bool {
        let h = distance(target, self.val(a)) as u32;
        self.kids(a).contains_key(h) && on_path(self.parents@, self.kids(a)[h] as int, k)
    }

    spec fn parents_ok(&self) -> bool {
        &&& self.parents@.len() == self.nodes@.len()
        &&& forall|j: int| 0 < j < self.parents@.len() ==> 0 <= #[trigger] self.parents@[j] < j
    }

    spec fn edges_ok(&self) -> bool {
        forall|i: int, d: u32|
            0 <= i < self.nodes@.len() && #[trigger] self.kids(i).contains_key(d) ==> {
                let c = self.kids(i)[d] as int;
                &&& i < c < self.nodes@.len()
                &&& self.parents@[c] == i
                &&& distance(self.val(c), self.val(i)) == d
            }
    }

    spec fn subtrees_ok(&self) -> bool {
        forall|a: int, k: int|
            0 <= a < self.nodes@.len() && 0 <= k < self.nodes@.len() && a != k && #[trigger] on_path(
                self.parents@,
                a,
                k,
            ) ==> self.routes(a, self.val(k), k)
    }

    spec fn distinct(&self) -> bool {
        forall|i: int, j: int|
            0 <= i < j < self.nodes@.len() ==> #[trigger] self.val(i) != #[trigger] self.val(j)
    }

    /// The tree is well formed: every child sits behind its parent in the
    /// arena, every value in the subtree under the child keyed by `d` is at
    /// distance exactly `d` from the parent's value, and no value is stored
    /// twice.
    pub closed spec fn wf(&self) -> bool {
        &&& self.parents_ok()
        &&& self.edges_ok()
        &&& self.subtrees_ok()
        &&& self.distinct()
    }

    /// A well-formed tree stores no value twice.
    pub proof fn lemma_no_duplicates(&self)
        requires
            self.wf(),
        ensures
            self@.no_duplicates(),
    {
        assert forall|i: int, j: int|
            0 <= i < self@.len() && 0 <= j < self@.len() && i != j implies self@[i] != self@[j] by {
            if i < j {
                assert(self.val(i) != self.val(j));
            } else {
                assert(self.val(j) != self.val(i));
            }
        }
    }

    /// An empty tree.
    pub fn new() -> (t: Self)
        ensures
            t.wf(),
            t@ == Seq::<u64>::empty(),
    {
        let t = Self { nodes: Vec::new(), parents: Ghost(Seq::empty()) };
        assert(t@ =~= Seq::<u64>::empty());
        t
    }

    /// Number of stored values.
    pub fn len(&self) -> (n: usize)
        ensures
            n == self@.len(),
    {
        self.nodes.len()
    }

    /// Whether nothing is stored.
    pub fn is_empty(&self) -> (b: bool)
        ensures
            b == (self@.len() == 0),
    {
        self.nodes.is_empty()
    }
}

impl BKTreeInner {
    /// The walk towards `x` has reached node `i`: if `x` is stored, then in
    /// the subtree of `i`, and every node above `i` sent the walk this way.
    spec fn walk_at(&self, x: u64, i: int) -> bool {
        &&& 0 <= i < self.nodes@.len()
        &&& forall|k: int|
            0 <= k < self.nodes@.len() && #[trigger] self.val(k) == x ==> on_path(self.parents@, i, k)
        &&& forall|a: int|
            0 <= a < self.nodes@.len() && a != i && #[trigger] on_path(self.parents@, a, i)
                ==> self.routes(a, x, i)
    }

    /// At the root the walk has everything before it.
    proof fn lemma_walk_start(&self, x: u64)
        requires
            self.wf(),
            self.nodes@.len() > 0,
        ensures
            self.walk_at(x, 0),
    {
        assert forall|k: int| 0 <= k < self.nodes@.len() implies on_path(self.parents@, 0, k) by {
            lemma_on_path_root(self.parents@, k);
        }
        assert forall|a: int|
            0 <= a < self.nodes@.len() && a != 0 && #[trigger] on_path(
                self.parents@,
                a,
                0,
            ) implies self.routes(a, x, 0) by {
            lemma_on_path_le(self.parents@, a, 0);
        }
    }

    /// A node at distance zero holds `x` itself.
    proof fn lemma_walk_found(&self, x: u64, i: int)
        requires
            self.wf(),
            0 <= i < self.nodes@.len(),
            distance(x, self.val(i)) == 0,
        ensures
            self@.contains(x),
    {
        lemma_distance_zero(x, self.val(i));
        assert(self@[i] == x);
    }

    /// The walk goes on to the child keyed by the distance to `x`.
    proof fn lemma_walk_descend(&self, x: u64, i: int, d: u32)
        requires
            self.wf(),
            self.walk_at(x, i),
            d == distance(x, self.val(i)),
            d != 0,
            self.kids(i).contains_key(d),
        ensures
            self.walk_at(x, self.kids(i)[d] as int),
            i < self.kids(i)[d],
    {
        let c = self.kids(i)[d] as int;
        let n = self.nodes@.len() as int;
        assert(i < c < n && self.parents@[c] == i);
        assert forall|k: int| 0 <= k < n && #[trigger] self.val(k) == x implies on_path(
            self.parents@,
            c,
            k,
        ) by {
            assert(on_path(self.parents@, i, k));
            if k == i {
                lemma_distance_zero(x, self.val(i));
            }
            assert(self.routes(i, self.val(k), k));
        }
        assert forall|a: int|
            0 <= a < n && a != c && #[trigger] on_path(self.parents@, a, c) implies self.routes(
            a,
            x,
            c,
        ) by {
            assert(on_path(self.parents@, a, i));
            if a != i {
                assert(self.routes(a, x, i));
            } else {
                assert(on_path(self.parents@, c, c));
            }
        }
    }

    /// `post` is `pre` with `x` attached under node `i` as the child keyed
    /// by `d`.
    spec fn attached(pre: Self, post: Self, x: u64, i: int, d: u32) -> bool {
        let n = pre.nodes@.len() as int;
        &&& post.nodes@.len() == n + 1
        &&& post.parents@ == pre.parents@.push(i)
        &&& post.val(n) == x
        &&& post.kids(n) == Map::<u32, usize>::empty()
        &&& post.kids(i).dom() == pre.kids(i).dom().insert(d)
        &&& post.kids(i)[d] == n
        &&& forall|dd: u32| #[trigger]
            pre.kids(i).contains_key(dd) ==> post.kids(i)[dd] == pre.kids(i)[dd]
        &&& forall|j: int| 0 <= j < n ==> #[trigger] post.val(j) == pre.val(j)
        &&& forall|j: int| 0 <= j < n && j != i ==> #[trigger] post.kids(j) == pre.kids(j)
    }

    /// The walk ended at node `i`, which has no child keyed by `d`.
    spec fn walk_ended(&self, x: u64, i: int, d: u32) -> bool {
        &&& self.wf()
        &&& self.walk_at(x, i)
        &&& d == distance(x, self.val(i))
        &&& d != 0
        &&& !self.kids(i).contains_key(d)
    }

    /// Where the walk ends without a match, `x` is not stored.
    proof fn lemma_walk_ended_absent(&self, x: u64, i: int, d: u32)
        requires
            self.walk_ended(x, i, d),
        ensures
            !self@.contains(x),
            forall|k: int| 0 <= k < self.nodes@.len() ==> #[trigger] self.val(k) != x,
    {
        assert forall|k: int| 0 <= k < self.nodes@.len() implies #[trigger] self.val(k) != x by {
            if self.val(k) == x {
                assert(on_path(self.parents@, i, k));
                if k == i {
                    lemma_distance_zero(x, self.val(i));
                } else {
                    assert(self.routes(i, self.val(k), k));
                }
            }
        }
        if self@.contains(x) {
            let k = choose|k: int| 0 <= k < self@.len() && self@[k] == x;
            assert(self.val(k) == x);
        }
    }

    /// Attaching `x` keeps every child behind its parent, at its key's
    /// distance.
    proof fn lemma_attach_edges(pre: Self, post: Self, x: u64, i: int, d: u32)
        requires
            pre.walk_ended(x, i, d),
            Self::attached(pre, post, x, i, d),
        ensures
            post.parents_ok(),
            post.edges_ok(),
    {
        let n = pre.nodes@.len() as int;
        assert forall|j: int, dd: u32|
            0 <= j < post.nodes@.len() && #[trigger] post.kids(j).contains_key(dd) implies ({
            let c = post.kids(j)[dd] as int;
            &&& j < c < post.nodes@.len()
            &&& post.parents@[c] == j
            &&& distance(post.val(c), post.val(j)) == dd
        }) by {
            if j == n {
            } else if j == i {
                assert(post.val(i) == pre.val(i));
                if dd != d {
                    assert(pre.kids(i).dom().insert(d).contains(dd));
                    assert(pre.kids(i).contains_key(dd));
                    let c = pre.kids(i)[dd] as int;
                    assert(post.val(c) == pre.val(c));
                }
            } else {
                assert(post.kids(j) == pre.kids(j));
                assert(pre.kids(j).contains_key(dd));
                let c = pre.kids(j)[dd] as int;
                assert(post.val(c) == pre.val(c));
                assert(post.val(j) == pre.val(j));
            }
        }
    }

    /// Attaching `x` keeps every subtree at its key's distance.
    proof fn lemma_attach_subtrees(pre: Self, post: Self, x: u64, i: int, d: u32)
        requires
            pre.walk_ended(x, i, d),
            Self::attached(pre, post, x, i, d),
        ensures
            post.subtrees_ok(),
    {
        let n = pre.nodes@.len() as int;
        assert forall|a: int, k: int|
            0 <= a < post.nodes@.len() && 0 <= k < post.nodes@.len() && a != k && #[trigger] on_path(
                post.parents@,
                a,
                k,
            ) implies post.routes(a, post.val(k), k) by {
            if a == n {
                lemma_on_path_le(post.parents@, a, k);
            } else if k == n {
                assert(post.val(a) == pre.val(a));
                assert(on_path(post.parents@, a, i));
                lemma_on_path_push(pre.parents@, i, a, i);
                if a != i {
                    assert(pre.routes(a, x, i));
                    let h = distance(x, pre.val(a)) as u32;
                    let c = pre.kids(a)[h] as int;
                    assert(post.kids(a) == pre.kids(a));
                    lemma_on_path_push(pre.parents@, i, c, i);
                    assert(on_path(post.parents@, c, i));
                } else {
                    assert(on_path(post.parents@, n, n));
                }
            } else {
                assert(post.val(a) == pre.val(a));
                assert(post.val(k) == pre.val(k));
                lemma_on_path_push(pre.parents@, i, a, k);
                assert(pre.routes(a, pre.val(k), k));
                let h = distance(pre.val(k), pre.val(a)) as u32;
                let c = pre.kids(a)[h] as int;
                assert(pre.kids(a).contains_key(h));
                lemma_on_path_push(pre.parents@, i, c, k);
                if a != i {
                    assert(post.kids(a) == pre.kids(a));
                } else {
                    assert(pre.kids(i).dom().insert(d).contains(h));
                }
            }
        }
    }

    /// Attaching `x` where the walk ended keeps the tree well formed.
    proof fn lemma_attach(pre: Self, post: Self, x: u64, i: int, d: u32)
        requires
            pre.walk_ended(x, i, d),
            Self::attached(pre, post, x, i, d),
        ensures
            post.wf(),
            !pre@.contains(x),
            post@ == pre@.push(x),
    {
        let n = pre.nodes@.len() as int;
        pre.lemma_walk_ended_absent(x, i, d);
        Self::lemma_attach_edges(pre, post, x, i, d);
        Self::lemma_attach_subtrees(pre, post, x, i, d);
        assert forall|j: int| 0 <= j < post@.len() implies post@[j] == pre@.push(x)[j] by {
            if j < n {
                assert(post.val(j) == pre.val(j));
            }
        }
        assert(post@ =~= pre@.push(x));
        assert forall|p: int, q: int| 0 <= p < q < post.nodes@.len() implies #[trigger] post.val(p)
            != #[trigger] post.val(q) by {
            assert(post.val(p) == pre.val(p));
            if q < n {
                assert(post.val(q) == pre.val(q));
                assert(pre.val(p) != pre.val(q));
            } else {
                assert(pre.val(p) != x);
            }
        }
    }

    /// Stores `x` unless it is already there, and says whether it was new.
    ///
    /// Walks from the root along the children keyed by the distance to `x`
    /// until it meets `x` itself or a missing child, where `x` is attached.
    pub fn add(&mut self, x: u64) -> (r: bool)
        requires
            old(self).wf(),
        ensures
            final(self).wf(),
            r == !old(self)@.contains(x),
            final(self)@ == inserted(old(self)@, x),
    {
        if self.nodes.is_empty() {
            self.nodes.push(BKNode { val: x, children: HashMap::new() });
            proof {
                self.parents@ = seq![-1int];
                assert(self@ =~= old(self)@.push(x));
            }
            return true;
        }
        let mut idx: usize = 0;
        proof {
            self.lemma_walk_start(x);
        }
        loop
            invariant
                *self == *old(self),
                self.wf(),
                self.walk_at(x, idx as int),
            decreases self.nodes@.len() - idx,
        {
            let d = hamming(x, self.nodes[idx].val);
            if d == 0 {
                proof {
                    self.lemma_walk_found(x, idx as int);
                }
                return false;
            }
            let next: Option<usize> = match self.nodes[idx].children.get(&d) {
                Some(c) => Some(*c),
                None => None,
            };
            match next {
                Some(c) => {
                    proof {
                        self.lemma_walk_descend(x, idx as int, d);
                    }
                    idx = c;
                },
                None => {
                    let new_idx = self.nodes.len();
                    self.nodes.push(BKNode { val: x, children: HashMap::new() });
                    self.nodes[idx].children.insert(d, new_idx);
                    proof {
                        self.parents@ = self.parents@.push(idx as int);
                        assert(self.kids(idx as int) =~= old(self).kids(idx as int).insert(
                            d,
                            new_idx,
                        ));
                        Self::lemma_attach(*old(self), *self, x, idx as int, d);
                    }
                    return true;
                },
            }
        }
    }
}

impl BKTreeInner {
    /// Node `k` lies in the subtree of some node that waits on the stack.
    spec fn pending(&self, stack: Seq<usize>, k: int) -> bool {
        exists|j: int| 0 <= j < stack.len() && on_path(self.parents@, #[trigger] stack[j] as int, k)
    }

    /// The nodes on the stack exist, and none lies in the subtree of another.
    spec fn frontier(&self, stack: Seq<usize>) -> bool {
        &&& forall|j: int| 0 <= j < stack.len() ==> #[trigger] stack[j] < self.nodes@.len()
        &&& forall|j1: int, j2: int|
            0 <= j1 < stack.len() && 0 <= j2 < stack.len() && j1 != j2 ==> !on_path(
                self.parents@,
                #[trigger] stack[j1] as int,
                #[trigger] stack[j2] as int,
            )
    }

    /// State of a search around `x`: what was visited is no longer pending,
    /// and every node within `radius` of `x` is visited or still pending.
    spec fn searching(&self, x: u64, radius: u32, stack: Seq<usize>, visited: Set<int>) -> bool {
        &&& self.frontier(stack)
        &&& visited.finite()
        &&& forall|k: int| #[trigger] visited.contains(k) ==> 0 <= k < self.nodes@.len()
        &&& forall|k: int| #[trigger] visited.contains(k) ==> !self.pending(stack, k)
        &&& forall|k: int|
            0 <= k < self.nodes@.len() && distance(x, #[trigger] self.val(k)) <= radius
                ==> visited.contains(k) || self.pending(stack, k)
    }

    /// The children of `s` that were pushed: no child twice, and each child
    /// whose key lies between `lo` and `hi`.
    spec fn pushed(&self, s: int, lo: u32, hi: u32, added: Seq<usize>) -> bool {
        &&& added.no_duplicates()
        &&& forall|j: int|
            0 <= j < added.len() ==> s < #[trigger] added[j] < self.nodes@.len()
                && self.parents@[added[j] as int] == s
        &&& forall|key: u32| #[trigger]
            self.kids(s).contains_key(key) && lo <= key <= hi ==> added.contains(self.kids(s)[key])
    }

    /// With only the root on the stack, every node is pending.
    proof fn lemma_search_start(&self, x: u64, radius: u32)
        requires
            self.wf(),
            self.nodes@.len() > 0,
        ensures
            self.searching(x, radius, seq![0usize], Set::empty()),
    {
        let stack = seq![0usize];
        assert forall|k: int| 0 <= k < self.nodes@.len() implies self.pending(stack, k) by {
            lemma_on_path_root(self.parents@, k);
            assert(on_path(self.parents@, stack[0] as int, k));
        }
    }

    /// With the stack empty, every node within `radius` was visited.
    proof fn lemma_search_done(&self, x: u64, radius: u32, visited: Set<int>, k: int)
        requires
            self.searching(x, radius, Seq::empty(), visited),
            0 <= k < self.nodes@.len(),
            distance(x, self.val(k)) <= radius,
        ensures
            visited.contains(k),
    {
    }

    /// Once the children of `s` have replaced it, still no node on the stack
    /// lies in the subtree of another.
    proof fn lemma_search_frontier(
        &self,
        rest: Seq<usize>,
        s: usize,
        lo: u32,
        hi: u32,
        added: Seq<usize>,
    )
        requires
            self.wf(),
            self.frontier(rest.push(s)),
            self.pushed(s as int, lo, hi, added),
        ensures
            self.frontier(rest + added),
    {
        let before = rest.push(s);
        let after = rest + added;
        let m = rest.len() as int;
        assert(before[m] == s);
        assert forall|j1: int, j2: int|
            0 <= j1 < after.len() && 0 <= j2 < after.len() && j1 != j2 implies !on_path(
            self.parents@,
            #[trigger] after[j1] as int,
            #[trigger] after[j2] as int,
        ) by {
            let a = after[j1] as int;
            let b = after[j2] as int;
            if on_path(self.parents@, a, b) {
                if j1 < m && j2 < m {
                    assert(before[j1] == a && before[j2] == b);
                } else if j1 < m {
                    // `a` waits on the stack, `b` is a child of `s`
                    assert(before[j1] == a);
                    assert(added[j2 - m] == b);
                    if a == b {
                        assert(on_path(self.parents@, s as int, s as int));
                        assert(on_path(self.parents@, s as int, a));
                        assert(!on_path(self.parents@, before[m] as int, before[j1] as int));
                    } else {
                        assert(!on_path(self.parents@, before[j1] as int, before[m] as int));
                    }
                } else if j2 < m {
                    assert(before[j2] == b);
                    assert(added[j1 - m] == a);
                    lemma_on_path_up(self.parents@, a, b);
                    assert(!on_path(self.parents@, before[m] as int, before[j2] as int));
                } else {
                    assert(added[j1 - m] == a);
                    assert(added[j2 - m] == b);
                    assert(a != b);
                    lemma_on_path_le(self.parents@, a, s as int);
                }
            }
        }
        assert forall|j: int| 0 <= j < after.len() implies #[trigger] after[j]
            < self.nodes@.len() by {
            if j < m {
                assert(before[j] == after[j]);
            } else {
                assert(added[j - m] == after[j]);
            }
        }
    }

    /// What is pending after node `s` gave way to its children was pending
    /// before, and `s` itself is pending no more.
    proof fn lemma_search_narrows(
        &self,
        rest: Seq<usize>,
        s: usize,
        lo: u32,
        hi: u32,
        added: Seq<usize>,
        k: int,
    )
        requires
            self.wf(),
            self.frontier(rest.push(s)),
            self.pushed(s as int, lo, hi, added),
            self.pending(rest + added, k),
        ensures
            self.pending(rest.push(s), k),
            k != s,
    {
        let before = rest.push(s);
        let after = rest + added;
        let m = rest.len() as int;
        let si = s as int;
        assert(before[m] == s);
        let j = choose|j: int|
            0 <= j < after.len() && on_path(self.parents@, #[trigger] after[j] as int, k);
        if j < m {
            assert(before[j] == after[j]);
            assert(on_path(self.parents@, before[j] as int, k));
            if k == si {
                assert(!on_path(self.parents@, before[j] as int, before[m] as int));
            }
        } else {
            let c = added[j - m] as int;
            assert(after[j] == c);
            lemma_on_path_up(self.parents@, c, k);
            assert(on_path(self.parents@, before[m] as int, k));
            if k == si {
                lemma_on_path_le(self.parents@, c, si);
            }
        }
    }

    /// A node within `radius` of `x` that was pending under `s` or under the
    /// rest of the stack is still pending once the children of `s` whose key
    /// lies between `lo` and `hi` have replaced `s`.
    proof fn lemma_search_covers(
        &self,
        x: u64,
        radius: u32,
        rest: Seq<usize>,
        s: usize,
        lo: u32,
        hi: u32,
        added: Seq<usize>,
        k: int,
    )
        requires
            self.wf(),
            s < self.nodes@.len(),
            0 <= k < self.nodes@.len(),
            k != s,
            distance(x, self.val(k)) <= radius,
            self.pending(rest.push(s), k),
            lo == if distance(x, self.val(s as int)) >= radius {
                distance(x, self.val(s as int)) - radius
            } else {
                0
            },
            hi == if distance(x, self.val(s as int)) + radius <= u32::MAX {
                distance(x, self.val(s as int)) + radius
            } else {
                u32::MAX as int
            },
            self.pushed(s as int, lo, hi, added),
        ensures
            self.pending(rest + added, k),
    {
        let before = rest.push(s);
        let after = rest + added;
        let m = rest.len() as int;
        let si = s as int;
        let j = choose|j: int|
            0 <= j < before.len() && on_path(self.parents@, #[trigger] before[j] as int, k);
        if j < m {
            assert(after[j] == before[j]);
            assert(on_path(self.parents@, after[j] as int, k));
        } else {
            assert(before[j] == s);
            assert(on_path(self.parents@, si, k));
            assert(self.routes(si, self.val(k), k));
            let h = distance(self.val(k), self.val(si)) as u32;
            lemma_distance_bound(self.val(k), self.val(si));
            lemma_distance_triangle(self.val(k), x, self.val(si));
            lemma_distance_triangle(x, self.val(k), self.val(si));
            lemma_distance_symmetric(self.val(k), x);
            assert(lo <= h <= hi);
            let c = self.kids(si)[h];
            assert(self.kids(si).contains_key(h));
            assert(added.contains(c));
            let i = choose|i: int| 0 <= i < added.len() && added[i] == c;
            assert(after[m + i] == c);
            assert(on_path(self.parents@, after[m + i] as int, k));
        }
    }

    /// One step of the search: node `s` leaves the stack and those of its
    /// children that may hold a match enter it.
    proof fn lemma_search_step(
        &self,
        x: u64,
        radius: u32,
        rest: Seq<usize>,
        s: usize,
        lo: u32,
        hi: u32,
        added: Seq<usize>,
        visited: Set<int>,
    )
        requires
            self.wf(),
            self.searching(x, radius, rest.push(s), visited),
            lo == if distance(x, self.val(s as int)) >= radius {
                distance(x, self.val(s as int)) - radius
            } else {
                0
            },
            hi == if distance(x, self.val(s as int)) + radius <= u32::MAX {
                distance(x, self.val(s as int)) + radius
            } else {
                u32::MAX as int
            },
            self.pushed(s as int, lo, hi, added),
        ensures
            !visited.contains(s as int),
            self.searching(x, radius, rest + added, visited.insert(s as int)),
            visited.insert(s as int).len() <= self.nodes@.len(),
            visited.insert(s as int).len() == visited.len() + 1,
    {
        let before = rest.push(s);
        let after = rest + added;
        let si = s as int;
        let n = self.nodes@.len() as int;
        let after_visited = visited.insert(si);
        assert(before[rest.len() as int] == s);
        assert(on_path(self.parents@, before[rest.len() as int] as int, si));
        assert(self.pending(before, si));
        self.lemma_search_frontier(rest, s, lo, hi, added);
        assert forall|k: int| #[trigger] after_visited.contains(k) implies !self.pending(after, k) by {
            if self.pending(after, k) {
                self.lemma_search_narrows(rest, s, lo, hi, added, k);
            }
        }
        assert forall|k: int|
            0 <= k < n && distance(x, #[trigger] self.val(k)) <= radius implies after_visited.contains(k)
            || self.pending(after, k) by {
            if !visited.contains(k) && k != si {
                self.lemma_search_covers(x, radius, rest, s, lo, hi, added, k);
            }
        }
        assert(after_visited.subset_of(set_int_range(0, n)));
        lemma_int_range(0, n);
        lemma_len_subset(after_visited, set_int_range(0, n));
    }

    /// Pushes those children of node `idx` whose key lies between `lo` and
    /// `hi`.
    fn push_children(&self, idx: usize, lo: u32, hi: u32, stack: &mut Vec<usize>) -> (added: Ghost<
        Seq<usize>,
    >)
        requires
            self.wf(),
            idx < self.nodes@.len(),
        ensures
            final(stack)@ == old(stack)@ + added@,
            self.pushed(idx as int, lo, hi, added@),
    {
        let ghost mut added: Seq<usize> = Seq::empty();
        let ghost mut source: Seq<int> = Seq::empty();
        let children = &self.nodes[idx].children;
        let ghost all = spec_hash_map_iter(children).remaining();
        assert(stack@ =~= old(stack)@ + added);
        for entry in it: children.iter()
            invariant
                self.wf(),
                idx < self.nodes@.len(),
                children@ == self.kids(idx as int),
                it.seq() == all,
                all == spec_hash_map_iter(children).remaining(),
                all.no_duplicates(),
                stack@ == old(stack)@ + added,
                added.len() == source.len(),
                forall|j: int|
                    0 <= j < added.len() ==> 0 <= #[trigger] source[j] < it.index() && added[j]
                        == *all[source[j]].1,
                forall|j1: int, j2: int|
                    0 <= j1 < j2 < added.len() ==> #[trigger] source[j1] < #[trigger] source[j2],
                forall|i: int|
                    0 <= i < it.index() && lo <= *all[i].0 <= hi ==> added.contains(
                        *#[trigger] all[i].1,
                    ),
        {
            let (dd, child_idx) = entry;
            if *dd >= lo && *dd <= hi {
                let ghost prev = added;
                stack.push(*child_idx);
                proof {
                    added = added.push(*child_idx);
                    source = source.push(it.index() as int);
                    assert(stack@ =~= old(stack)@ + added);
                    assert forall|i: int|
                        0 <= i < it.index() + 1 && lo <= *all[i].0 <= hi implies added.contains(
                        *#[trigger] all[i].1,
                    ) by {
                        if i < it.index() {
                            let j = choose|j: int| 0 <= j < prev.len() && prev[j] == *all[i].1;
                            assert(added[j] == prev[j]);
                        } else {
                            assert(added[prev.len() as int] == *all[i].1);
                        }
                    }
                }
            }
        }
        proof {
            let s = idx as int;
            assert forall|j: int| 0 <= j < added.len() implies s < #[trigger] added[j]
                < self.nodes@.len() && self.parents@[added[j] as int] == s by {
                let key = *all[source[j]].0;
                assert(self.kids(s).contains_key(key));
            }
            assert forall|j1: int, j2: int|
                0 <= j1 < added.len() && 0 <= j2 < added.len() && j1 != j2 implies added[j1]
                != added[j2] by {
                let k1 = *all[source[j1]].0;
                let k2 = *all[source[j2]].0;
                assert(self.kids(s).contains_key(k1));
                assert(self.kids(s).contains_key(k2));
                if j1 < j2 {
                    assert(source[j1] < source[j2]);
                } else {
                    assert(source[j2] < source[j1]);
                }
                assert(all[source[j1]] != all[source[j2]]);
                if added[j1] == added[j2] {
                    assert(k1 == k2);
                }
            }
            assert forall|key: u32| #[trigger]
                self.kids(s).contains_key(key) && lo <= key <= hi implies added.contains(
                self.kids(s)[key],
            ) by {
                assert(all.contains((&key, &children@[key])));
                let i = choose|i: int| 0 <= i < all.len() && all[i] == (&key, &children@[key]);
                assert(*all[i].0 == key);
                assert(added.contains(*all[i].1));
            }
        }
        Ghost(added)
    }
}

impl BKTreeInner {
    /// What the search has gathered: the values within `radius` of `x` of the
    /// nodes visited so far, each once; `origin` gives the node of each.
    spec fn gathered(
        &self,
        x: u64,
        radius: u32,
        results: Seq<u64>,
        origin: Seq<int>,
        visited: Set<int>,
    ) -> bool {
        &&& origin.len() == results.len()
        &&& forall|i: int|
            0 <= i < results.len() ==> visited.contains(#[trigger] origin[i]) && self.val(origin[i])
                == results[i] && distance(x, results[i]) <= radius
        &&& forall|k: int|
            visited.contains(k) && distance(x, #[trigger] self.val(k)) <= radius
                ==> results.contains(self.val(k))
    }

    /// Visiting node `s` adds its value to the results exactly if it lies
    /// within `radius`, and never a second time.
    proof fn lemma_gather(
        &self,
        x: u64,
        radius: u32,
        results: Seq<u64>,
        origin: Seq<int>,
        visited: Set<int>,
        s: int,
    )
        requires
            self.wf(),
            0 <= s < self.nodes@.len(),
            !visited.contains(s),
            forall|k: int| #[trigger] visited.contains(k) ==> 0 <= k < self.nodes@.len(),
            results.no_duplicates(),
            self.gathered(x, radius, results, origin, visited),
        ensures
            distance(x, self.val(s)) <= radius ==> results.push(self.val(s)).no_duplicates()
                && self.gathered(
                x,
                radius,
                results.push(self.val(s)),
                origin.push(s),
                visited.insert(s),
            ),
            distance(x, self.val(s)) > radius ==> self.gathered(
                x,
                radius,
                results,
                origin,
                visited.insert(s),
            ),
    {
        let v = self.val(s);
        if distance(x, v) <= radius {
            let after = results.push(v);
            let after_origin = origin.push(s);
            assert forall|i: int| 0 <= i < results.len() implies results[i] != v by {
                let k = origin[i];
                assert(visited.contains(k));
                if k < s {
                    assert(self.val(k) != self.val(s));
                } else {
                    assert(self.val(s) != self.val(k));
                }
            }
            assert forall|i: int| 0 <= i < after.len() implies visited.insert(s).contains(
                #[trigger] after_origin[i],
            ) && self.val(after_origin[i]) == after[i] && distance(x, after[i]) <= radius by {
                if i < results.len() {
                    assert(after_origin[i] == origin[i]);
                }
            }
            assert forall|k: int|
                visited.insert(s).contains(k) && distance(x, #[trigger] self.val(k))
                    <= radius implies after.contains(self.val(k)) by {
                if k == s {
                    assert(after[results.len() as int] == v);
                } else {
                    let i = choose|i: int| 0 <= i < results.len() && results[i] == self.val(k);
                    assert(after[i] == self.val(k));
                }
            }
        }
    }

    /// At the end of the search the gathered values are those within `radius`.
    proof fn lemma_gathered_all(
        &self,
        x: u64,
        radius: u32,
        results: Seq<u64>,
        origin: Seq<int>,
        visited: Set<int>,
    )
        requires
            self.wf(),
            self.searching(x, radius, Seq::empty(), visited),
            self.gathered(x, radius, results, origin, visited),
        ensures
            forall|v: u64|
                results.contains(v) <==> self@.contains(v) && distance(x, v) <= radius,
    {
        assert forall|v: u64| results.contains(v) implies self@.contains(v) && distance(x, v)
            <= radius by {
            let i = choose|i: int| 0 <= i < results.len() && results[i] == v;
            assert(visited.contains(origin[i]));
            assert(self@[origin[i]] == v);
        }
        assert forall|v: u64| self@.contains(v) && distance(x, v) <= radius implies results.contains(
            v,
        ) by {
            let k = choose|k: int| 0 <= k < self@.len() && self@[k] == v;
            assert(self.val(k) == v);
            self.lemma_search_done(x, radius, visited, k);
        }
    }

    /// All stored values within `radius` of `x`, each once, in no particular
    /// order.
    ///
    /// Visits the root and, below a visited node at distance `d` from `x`,
    /// only the children keyed by a distance between `d - radius` and
    /// `d + radius`: by the triangle inequality no other subtree holds a
    /// match.
    pub fn find_all_within(&self, x: u64, radius: u32) -> (results: Vec<u64>)
        requires
            self.wf(),
        ensures
            results@.no_duplicates(),
            results@.to_set() == within(self@, x, radius),
    {
        if self.nodes.is_empty() {
            let results: Vec<u64> = Vec::new();
            assert(results@.to_set() =~= within(self@, x, radius));
            return results;
        }
        let mut results: Vec<u64> = Vec::new();
        let mut stack: Vec<usize> = vec![0usize];
        let ghost mut visited: Set<int> = Set::empty();
        let ghost mut origin: Seq<int> = Seq::empty();
        proof {
            self.lemma_search_start(x, radius);
            assert(stack@ =~= seq![0usize]);
        }
        while stack.len() > 0
            invariant
                self.wf(),
                self.searching(x, radius, stack@, visited),
                self.gathered(x, radius, results@, origin, visited),
                results@.no_duplicates(),
                visited.len() <= self.nodes@.len(),
            decreases self.nodes@.len() - visited.len(),
        {
            let ghost before = stack@;
            let idx = stack.pop().unwrap();
            let ghost rest = stack@;
            assert(before =~= rest.push(idx));
            assert(before[rest.len() as int] == idx);
            let node = &self.nodes[idx];
            let d = hamming(x, node.val);
            proof {
                assert(self.pending(before, idx as int)) by {
                    assert(on_path(self.parents@, before[rest.len() as int] as int, idx as int));
                }
                self.lemma_gather(x, radius, results@, origin, visited, idx as int);
            }
            if d <= radius {
                results.push(node.val);
                proof {
                    origin = origin.push(idx as int);
                }
            }
            // Both bounds saturate, so that a radius beyond 64 prunes nothing.
            let lo = d.saturating_sub(radius);
            let hi = d.saturating_add(radius);
            let added = self.push_children(idx, lo, hi, &mut stack);
            proof {
                self.lemma_search_step(x, radius, rest, idx, lo, hi, added@, visited);
                visited = visited.insert(idx as int);
            }
        }
        proof {
            assert(stack@ =~= Seq::empty());
            self.lemma_gathered_all(x, radius, results@, origin, visited);
            assert(results@.to_set() =~= within(self@, x, radius));
        }
        results
    }

    /// Whether some stored value lies within `radius` of `x`.
    ///
    /// The same search as `find_all_within`, ended at the first match.
    pub fn any_within(&self, x: u64, radius: u32) -> (found: bool)
        requires
            self.wf(),
        ensures
            found <==> exists|v: u64| within(self@, x, radius).contains(v),
    {
        if self.nodes.is_empty() {
            return false;
        }
        let mut stack: Vec<usize> = vec![0usize];
        let ghost mut visited: Set<int> = Set::empty();
        proof {
            self.lemma_search_start(x, radius);
            assert(stack@ =~= seq![0usize]);
        }
        while stack.len() > 0
            invariant
                self.wf(),
                self.searching(x, radius, stack@, visited),
                forall|k: int| visited.contains(k) ==> distance(x, #[trigger] self.val(k)) > radius,
                visited.len() <= self.nodes@.len(),
            decreases self.nodes@.len() - visited.len(),
        {
            let ghost before = stack@;
            let idx = stack.pop().unwrap();
            let ghost rest = stack@;
            assert(before =~= rest.push(idx));
            let node = &self.nodes[idx];
            let d = hamming(x, node.val);
            if d <= radius {
                assert(self@[idx as int] == node.val);
                assert(within(self@, x, radius).contains(node.val));
                return true;
            }
            let lo = d.saturating_sub(radius);
            let hi = d.saturating_add(radius);
            let added = self.push_children(idx, lo, hi, &mut stack);
            proof {
                self.lemma_search_step(x, radius, rest, idx, lo, hi, added@, visited);
                visited = visited.insert(idx as int);
            }
        }
        proof {
            assert(stack@ =~= Seq::empty());
            assert forall|v: u64| !within(self@, x, radius).contains(v) by {
                if self@.contains(v) && distance(x, v) <= radius {
                    let k = choose|k: int| 0 <= k < self@.len() && self@[k] == v;
                    assert(self.val(k) == v);
                    self.lemma_search_done(x, radius, visited, k);
                }
            }
        }
        false
    }
}

} // verus!
