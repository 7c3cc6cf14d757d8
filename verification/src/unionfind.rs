use std::collections::HashMap;
use vstd::arithmetic::power2::{
    lemma2_to64_rest, lemma_pow2_strictly_increases, lemma_pow2_unfold, pow2,
};
use vstd::prelude::*;
use vstd::set_lib::lemma_len_subset;

verus! {

broadcast use vstd::std_specs::hash::group_hash_axioms;

/// Disjoint sets over 64-bit keys, with union by rank and path compression.
///
/// Each registered key owns one slot of a forest held in flat vectors.
pub struct UnionFindInner {
    /// Slot of each registered key.
    key_to_idx: HashMap<u64, usize>,
    /// Key of each slot.
    idx_to_key: Vec<u64>,
    parent: Vec<usize>,
    rank: Vec<u8>,
    count: usize,
}

/// The root reached from slot `i` by following parent pointers.
spec fn root_of(parent: Seq<usize>, rank: Seq<u8>, i: int) -> int
    decreases 255 - rank[i],
{
    if 0 <= i < parent.len() && i < rank.len() && parent[i] != i && parent[i] < rank.len()
        && rank[i] < rank[parent[i] as int] {
        root_of(parent, rank, parent[i] as int)
    } else {
        i
    }
}

/// What slot `j` adds to the weight of the forest: `2^rank` if it is a root.
spec fn share(parent: Seq<usize>, rank: Seq<u8>, j: int) -> nat {
    if parent[j] == j {
        pow2(rank[j] as nat)
    } else {
        0
    }
}

/// Sum of `2^rank` over the roots among the first `m` slots.
spec fn weight(parent: Seq<usize>, rank: Seq<u8>, m: int) -> nat
    decreases m,
{
    if m <= 0 {
        0
    } else {
        weight(parent, rank, m - 1) + share(parent, rank, m - 1)
    }
}

/// Two forests whose slots add the same to the weight, except perhaps slot
/// `at`, differ in weight by what slot `at` adds.
proof fn lemma_weight_differs(
    parent: Seq<usize>,
    rank: Seq<u8>,
    other_parent: Seq<usize>,
    other_rank: Seq<u8>,
    m: int,
    at: int,
)
    requires
        forall|j: int|
            0 <= j < m && j != at ==> share(parent, rank, j) == share(other_parent, other_rank, j),
    ensures
        0 <= at < m ==> weight(other_parent, other_rank, m) + share(parent, rank, at) == weight(
            parent,
            rank,
            m,
        ) + share(other_parent, other_rank, at),
        !(0 <= at < m) ==> weight(other_parent, other_rank, m) == weight(parent, rank, m),
    decreases m,
{
    if m > 0 {
        lemma_weight_differs(parent, rank, other_parent, other_rank, m - 1, at);
    }
}

/// The weight of the forest is at least what any one slot adds.
proof fn lemma_weight_covers(parent: Seq<usize>, rank: Seq<u8>, m: int, j: int)
    requires
        0 <= j < m,
    ensures
        share(parent, rank, j) <= weight(parent, rank, m),
    decreases m,
{
    if j < m - 1 {
        lemma_weight_covers(parent, rank, m - 1, j);
    }
}

/// The forest behind the structure, as plain values.
struct Forest {
    slot: Map<u64, usize>,
    keys: Seq<u64>,
    parent: Seq<usize>,
    rank: Seq<u8>,
}

impl Forest {
    /// Every parent pointer stays inside the forest, and ranks grow strictly
    /// towards the roots.
    spec fn links_ok(self) -> bool {
        &&& self.parent.len() == self.rank.len()
        &&& self.parent.len() <= usize::MAX
        &&& forall|i: int|
            0 <= i < self.parent.len() ==> (#[trigger] self.parent[i]) < self.parent.len() && (
            self.parent[i] != i ==> self.rank[i] < self.rank[self.parent[i] as int])
    }

    /// Keys and slots correspond one to one.
    spec fn keys_ok(self) -> bool {
        &&& self.keys.len() == self.parent.len()
        &&& forall|k: u64| #[trigger]
            self.slot.contains_key(k) ==> self.slot[k] < self.keys.len()
                && self.keys[self.slot[k] as int] == k
        &&& forall|i: int|
            0 <= i < self.keys.len() ==> self.slot.contains_key(#[trigger] self.keys[i])
                && self.slot[self.keys[i]] == i
    }

    /// The keys whose slot is a root.
    spec fn root_keys(self) -> Set<u64> {
        Set::new(
            |k: u64| self.slot.contains_key(k) && self.parent[self.slot[k] as int] == self.slot[k],
        )
    }

    spec fn ok(self) -> bool {
        &&& self.links_ok()
        &&& self.keys_ok()
        &&& self.slot.dom().finite()
        &&& weight(self.parent, self.rank, self.parent.len() as int) <= self.parent.len()
    }

    spec fn root(self, i: int) -> int {
        root_of(self.parent, self.rank, i)
    }

    /// Representative of each key: the key of the root above its slot.
    spec fn reps(self) -> Map<u64, u64> {
        Map::new(
            |k: u64| self.slot.contains_key(k),
            |k: u64| self.keys[self.root(self.slot[k] as int)],
        )
    }

    /// Rank byte of each key's slot.
    spec fn ranks(self) -> Map<u64, nat> {
        Map::new(|k: u64| self.slot.contains_key(k), |k: u64| self.rank[self.slot[k] as int] as nat)
    }

    /// Slot `idx` points to its grandparent.
    spec fn halved(self, idx: int) -> Forest {
        Forest { parent: self.parent.update(idx, self.parent[self.parent[idx] as int]), ..self }
    }

    /// Root `rb` hangs under root `ra`, whose rank grows if the two were equal.
    spec fn linked(self, ra: int, rb: int) -> Forest {
        Forest {
            parent: self.parent.update(rb, ra as usize),
            rank: if self.rank[ra] == self.rank[rb] {
                self.rank.update(ra, (self.rank[ra] + 1) as u8)
            } else {
                self.rank
            },
            ..self
        }
    }

    /// Key `x` has a new slot, a root of rank zero.
    spec fn registered(self, x: u64) -> Forest {
        Forest {
            slot: self.slot.insert(x, self.parent.len() as usize),
            keys: self.keys.push(x),
            parent: self.parent.push(self.parent.len() as usize),
            rank: self.rank.push(0),
        }
    }

    /// Above every slot there is a root, of a rank no lower.
    proof fn lemma_root(self, i: int)
        requires
            self.links_ok(),
            0 <= i < self.parent.len(),
        ensures
            0 <= self.root(i) < self.parent.len(),
            self.parent[self.root(i)] == self.root(i),
            self.rank[i] <= self.rank[self.root(i)],
            self.parent[i] != i ==> self.rank[i] < self.rank[self.root(i)],
            self.parent[i] == i <==> self.root(i) == i,
            self.root(self.parent[i] as int) == self.root(i),
            self.root(self.root(i)) == self.root(i),
        decreases 255 - self.rank[i],
    {
        if self.parent[i] != i {
            self.lemma_root(self.parent[i] as int);
        }
    }

    /// There are no more roots than keys, and one at least if there is a key.
    proof fn lemma_root_keys(self)
        requires
            self.ok(),
        ensures
            self.root_keys().finite(),
            self.root_keys().len() <= self.slot.dom().len(),
            self.slot.dom().len() > 0 ==> self.root_keys().len() >= 1,
            forall|k: u64|
                self.root_keys().contains(k) <==> self.reps().contains_key(k)
                    && #[trigger] self.reps()[k] == k,
    {
        assert(self.root_keys().subset_of(self.slot.dom()));
        lemma_len_subset(self.root_keys(), self.slot.dom());
        if self.slot.dom().len() > 0 {
            let k = self.slot.dom().choose();
            assert(self.slot.contains_key(k));
            let i = self.slot[k] as int;
            self.lemma_root(i);
            assert(self.root_keys().contains(self.keys[self.root(i)]));
            if self.root_keys().len() == 0 {
                self.root_keys().lemma_len0_is_empty();
            }
        }
        assert forall|k: u64|
            self.root_keys().contains(k) <==> self.reps().contains_key(k) && #[trigger] self.reps()[k]
                == k by {
            if self.slot.contains_key(k) {
                self.lemma_root(self.slot[k] as int);
            }
        }
    }

    /// A root of rank `r` stands for `2^r` slots at least, so no rank
    /// reaches 64.
    proof fn lemma_rank_bound(self, r: int)
        requires
            self.ok(),
            0 <= r < self.parent.len(),
            self.parent[r] == r,
        ensures
            self.rank[r] < 64,
    {
        lemma_weight_covers(self.parent, self.rank, self.parent.len() as int, r);
        lemma2_to64_rest();
        if self.rank[r] > 64 {
            lemma_pow2_strictly_increases(64, self.rank[r] as nat);
        }
    }

    /// Pointing slot `idx` to its grandparent leaves the root above slot `i`.
    proof fn lemma_halved_root(self, idx: int, i: int)
        requires
            self.links_ok(),
            0 <= idx < self.parent.len(),
            0 <= i < self.parent.len(),
        ensures
            self.halved(idx).links_ok(),
            self.halved(idx).root(i) == self.root(i),
        decreases 255 - self.rank[i],
    {
        let g = self.halved(idx);
        let p = self.parent[idx] as int;
        assert(g.links_ok()) by {
            assert(self.parent[p] < self.parent.len());
            assert forall|j: int| 0 <= j < g.parent.len() implies (#[trigger] g.parent[j])
                < g.parent.len() && (g.parent[j] != j ==> g.rank[j] < g.rank[g.parent[j] as int]) by {
                assert(self.parent[j] < self.parent.len());
            }
        }
        self.lemma_root(i);
        if self.parent[i] != i {
            if i == idx {
                self.lemma_root(p);
                self.lemma_halved_root(idx, self.parent[p] as int);
            } else {
                self.lemma_halved_root(idx, self.parent[i] as int);
            }
        } else {
            assert(self.parent[p] < self.parent.len());
        }
    }

    /// Pointing a slot to its grandparent changes no representative.
    proof fn lemma_halved(self, idx: int)
        requires
            self.ok(),
            0 <= idx < self.parent.len(),
        ensures
            self.halved(idx).ok(),
            self.halved(idx).root_keys() == self.root_keys(),
            self.halved(idx).reps() == self.reps(),
            self.halved(idx).ranks() == self.ranks(),
            forall|i: int|
                0 <= i < self.parent.len() ==> #[trigger] self.halved(idx).root(i) == self.root(i),
    {
        let g = self.halved(idx);
        let n = self.parent.len() as int;
        assert forall|i: int| 0 <= i < n implies #[trigger] g.root(i) == self.root(i) by {
            self.lemma_halved_root(idx, i);
        }
        self.lemma_halved_root(idx, idx);
        assert forall|j: int| 0 <= j < n implies (g.parent[j] == j <==> self.parent[j] == j) by {
            self.lemma_root(j);
            g.lemma_root(j);
            assert(g.root(j) == self.root(j));
        }
        assert forall|j: int| 0 <= j < n && j != -1 implies share(self.parent, self.rank, j) == share(
            g.parent,
            g.rank,
            j,
        ) by {
            assert(g.parent[j] == j <==> self.parent[j] == j);
        }
        lemma_weight_differs(self.parent, self.rank, g.parent, g.rank, n, -1);
        assert(g.root_keys() =~= self.root_keys()) by {
            assert forall|k: u64| g.root_keys().contains(k) <==> self.root_keys().contains(k) by {
                if self.slot.contains_key(k) {
                    let j = self.slot[k] as int;
                    assert(g.parent[j] == j <==> self.parent[j] == j);
                }
            }
        }
        assert(g.reps() =~= self.reps()) by {
            assert forall|k: u64| self.slot.contains_key(k) implies g.reps()[k] == self.reps()[k] by {
                let j = self.slot[k] as int;
                assert(g.root(j) == self.root(j));
            }
        }
        assert(g.ranks() =~= self.ranks());
    }
}

impl Forest {
    /// After a link ranks still grow strictly towards the roots.
    proof fn lemma_linked_links(self, ra: int, rb: int)
        requires
            self.ok(),
            0 <= ra < self.parent.len(),
            0 <= rb < self.parent.len(),
            ra != rb,
            self.parent[ra] == ra,
            self.parent[rb] == rb,
            self.rank[rb] <= self.rank[ra],
        ensures
            self.linked(ra, rb).links_ok(),
            self.linked(ra, rb).rank[ra] >= self.rank[ra],
            self.linked(ra, rb).rank[rb] < self.linked(ra, rb).rank[ra],
            forall|j: int|
                0 <= j < self.parent.len() && j != ra ==> #[trigger] self.linked(ra, rb).rank[j]
                    == self.rank[j],
    {
        let g = self.linked(ra, rb);
        self.lemma_rank_bound(ra);
        assert forall|j: int| 0 <= j < g.parent.len() implies (#[trigger] g.parent[j])
            < g.parent.len() && (g.parent[j] != j ==> g.rank[j] < g.rank[g.parent[j] as int]) by {
            assert(self.parent[j] < self.parent.len());
        }
    }

    /// After a link the slots under `rb` have the root `ra`.
    proof fn lemma_linked_root(self, ra: int, rb: int, i: int)
        requires
            self.ok(),
            0 <= ra < self.parent.len(),
            0 <= rb < self.parent.len(),
            ra != rb,
            self.parent[ra] == ra,
            self.parent[rb] == rb,
            self.rank[rb] <= self.rank[ra],
            0 <= i < self.parent.len(),
        ensures
            self.linked(ra, rb).root(i) == if self.root(i) == rb {
                ra
            } else {
                self.root(i)
            },
        decreases 255 - self.rank[i],
    {
        let g = self.linked(ra, rb);
        self.lemma_linked_links(ra, rb);
        self.lemma_root(i);
        if i == rb {
            assert(g.parent[rb] == ra);
            assert(g.root(ra) == ra);
        } else if self.parent[i] != i {
            self.lemma_linked_root(ra, rb, self.parent[i] as int);
            assert(g.parent[i] == self.parent[i]);
            assert(g.rank[i] == self.rank[i]);
        }
    }

    /// A link does not raise the weight of the forest.
    proof fn lemma_linked_weight(self, ra: int, rb: int)
        requires
            self.ok(),
            0 <= ra < self.parent.len(),
            0 <= rb < self.parent.len(),
            ra != rb,
            self.parent[ra] == ra,
            self.parent[rb] == rb,
            self.rank[rb] <= self.rank[ra],
        ensures
            weight(
                self.linked(ra, rb).parent,
                self.linked(ra, rb).rank,
                self.parent.len() as int,
            ) <= self.parent.len(),
    {
        let g = self.linked(ra, rb);
        let n = self.parent.len() as int;
        self.lemma_rank_bound(ra);
        // first the link, then the rank
        lemma_weight_differs(self.parent, self.rank, g.parent, self.rank, n, rb);
        lemma_weight_differs(g.parent, self.rank, g.parent, g.rank, n, ra);
        if self.rank[ra] == self.rank[rb] {
            lemma_pow2_unfold((self.rank[ra] + 1) as nat);
        }
    }

    /// Hanging the root `rb` under the root `ra` gives the keys of `rb` the
    /// representative of `ra` and leaves the others as they were.
    proof fn lemma_linked(self, ra: int, rb: int)
        requires
            self.ok(),
            0 <= ra < self.parent.len(),
            0 <= rb < self.parent.len(),
            ra != rb,
            self.parent[ra] == ra,
            self.parent[rb] == rb,
            self.rank[rb] <= self.rank[ra],
        ensures
            self.linked(ra, rb).ok(),
            self.root_keys().contains(self.keys[rb]),
            self.linked(ra, rb).root_keys() == self.root_keys().remove(self.keys[rb]),
            self.linked(ra, rb).reps() == Map::new(
                |k: u64| self.slot.contains_key(k),
                |k: u64|
                    if self.reps()[k] == self.keys[rb] {
                        self.keys[ra]
                    } else {
                        self.reps()[k]
                    },
            ),
            self.linked(ra, rb).ranks() == if self.rank[ra] == self.rank[rb] {
                self.ranks().insert(self.keys[ra], (self.rank[ra] + 1) as nat)
            } else {
                self.ranks()
            },
    {
        let g = self.linked(ra, rb);
        self.lemma_linked_links(ra, rb);
        self.lemma_linked_weight(ra, rb);
        self.lemma_rank_bound(ra);
        assert(g.root_keys() =~= self.root_keys().remove(self.keys[rb])) by {
            assert forall|k: u64|
                g.root_keys().contains(k) <==> self.root_keys().remove(self.keys[rb]).contains(k) by {
                if self.slot.contains_key(k) {
                    let j = self.slot[k] as int;
                    assert(self.keys[j] == k);
                }
            }
        }
        let expected = Map::new(
            |k: u64| self.slot.contains_key(k),
            |k: u64|
                if self.reps()[k] == self.keys[rb] {
                    self.keys[ra]
                } else {
                    self.reps()[k]
                },
        );
        assert(g.reps() =~= expected) by {
            assert forall|k: u64| self.slot.contains_key(k) implies g.reps()[k] == expected[k] by {
                let j = self.slot[k] as int;
                self.lemma_linked_root(ra, rb, j);
                self.lemma_root(j);
                let r = self.root(j);
                assert(self.slot[self.keys[r]] == r);
                assert(self.slot[self.keys[rb]] == rb);
            }
        }
        let expected_ranks = if self.rank[ra] == self.rank[rb] {
            self.ranks().insert(self.keys[ra], (self.rank[ra] + 1) as nat)
        } else {
            self.ranks()
        };
        assert(g.ranks() =~= expected_ranks) by {
            assert(self.slot.contains_key(self.keys[ra]));
            assert forall|k: u64| self.slot.contains_key(k) implies g.ranks()[k]
                == expected_ranks[k] by {
                let j = self.slot[k] as int;
                assert(self.keys[j] == k);
                assert(self.slot[self.keys[ra]] == ra);
            }
        }
    }

    /// A new slot changes the root above no other.
    proof fn lemma_registered_root(self, x: u64, i: int)
        requires
            self.links_ok(),
            0 <= i < self.parent.len(),
            self.parent.len() < usize::MAX,
        ensures
            self.registered(x).root(i) == self.root(i),
        decreases 255 - self.rank[i],
    {
        let g = self.registered(x);
        if self.parent[i] != i {
            assert(self.parent[i] < self.parent.len());
            self.lemma_registered_root(x, self.parent[i] as int);
        }
    }

    /// A new key becomes its own representative and changes no other.
    proof fn lemma_registered(self, x: u64)
        requires
            self.ok(),
            !self.slot.contains_key(x),
            self.parent.len() < usize::MAX,
        ensures
            self.registered(x).ok(),
            self.registered(x).root_keys() == self.root_keys().insert(x),
            !self.root_keys().contains(x),
            self.registered(x).reps() == self.reps().insert(x, x),
            self.registered(x).ranks() == self.ranks().insert(x, 0),
    {
        let g = self.registered(x);
        let n = self.parent.len() as int;
        assert(g.links_ok()) by {
            assert forall|j: int| 0 <= j < g.parent.len() implies (#[trigger] g.parent[j])
                < g.parent.len() && (g.parent[j] != j ==> g.rank[j] < g.rank[g.parent[j] as int]) by {
                if j < n {
                    assert(self.parent[j] < self.parent.len());
                }
            }
        }
        assert(g.keys_ok()) by {
            assert forall|k: u64| #[trigger] g.slot.contains_key(k) implies g.slot[k] < g.keys.len()
                && g.keys[g.slot[k] as int] == k by {
                if k != x {
                    assert(self.slot.contains_key(k));
                }
            }
            assert forall|i: int| 0 <= i < g.keys.len() implies g.slot.contains_key(
                #[trigger] g.keys[i],
            ) && g.slot[g.keys[i]] == i by {
                if i < n {
                    assert(self.slot.contains_key(self.keys[i]));
                }
            }
        }
        assert forall|j: int| 0 <= j < n && j != -1 implies share(self.parent, self.rank, j) == share(
            g.parent,
            g.rank,
            j,
        ) by {}
        lemma_weight_differs(self.parent, self.rank, g.parent, g.rank, n, -1);
        assert(share(g.parent, g.rank, n) == 1) by {
            vstd::arithmetic::power2::lemma2_to64();
        }
        assert(g.root_keys() =~= self.root_keys().insert(x)) by {
            assert forall|k: u64|
                g.root_keys().contains(k) <==> self.root_keys().insert(x).contains(k) by {
                if k != x && self.slot.contains_key(k) {
                    assert(self.slot[k] < n);
                }
            }
        }
        assert(g.reps() =~= self.reps().insert(x, x)) by {
            assert forall|k: u64| g.slot.contains_key(k) implies g.reps()[k] == self.reps().insert(
                x,
                x,
            )[k] by {
                if k != x {
                    assert(self.slot.contains_key(k));
                    let j = self.slot[k] as int;
                    self.lemma_registered_root(x, j);
                    self.lemma_root(j);
                }
            }
        }
        assert(g.ranks() =~= self.ranks().insert(x, 0)) by {
            assert forall|k: u64| g.slot.contains_key(k) implies g.ranks()[k] == self.ranks().insert(
                x,
                0,
            )[k] by {
                if k != x {
                    assert(self.slot.contains_key(k));
                }
            }
        }
    }
}

/// Every representative is a registered key that represents itself.
pub open spec fn canonical(reps: Map<u64, u64>) -> bool {
    forall|k: u64| #[trigger]
        reps.contains_key(k) ==> reps.contains_key(reps[k]) && reps[reps[k]] == reps[k]
}

/// `a` and `b` are in one set.
pub open spec fn same_set(reps: Map<u64, u64>, a: u64, b: u64) -> bool {
    reps[a] == reps[b]
}

/// The keys that represent their own set: one for each set.
pub open spec fn roots(reps: Map<u64, u64>) -> Set<u64> {
    Set::new(|k: u64| reps.contains_key(k) && reps[k] == k)
}

/// The sets after `x` was registered: as before if it was there, else with
/// `x` alone in a new set.
pub open spec fn with_singleton(reps: Map<u64, u64>, x: u64) -> Map<u64, u64> {
    if reps.contains_key(x) {
        reps
    } else {
        reps.insert(x, x)
    }
}

/// The ranks after `x` was registered: a new key starts at rank zero.
pub open spec fn with_singleton_rank(ranks: Map<u64, nat>, x: u64) -> Map<u64, nat> {
    if ranks.contains_key(x) {
        ranks
    } else {
        ranks.insert(x, 0)
    }
}

/// Which of the representatives of `a` and `b` represents the merged set:
/// the one of higher rank, and that of `a` if the ranks are equal.
pub open spec fn survivor(reps: Map<u64, u64>, ranks: Map<u64, nat>, a: u64, b: u64) -> u64 {
    if ranks[reps[a]] < ranks[reps[b]] {
        reps[b]
    } else {
        reps[a]
    }
}

/// The sets after the sets of `a` and `b` were merged.
pub open spec fn merged(reps: Map<u64, u64>, ranks: Map<u64, nat>, a: u64, b: u64) -> Map<
    u64,
    u64,
> {
    Map::new(
        |k: u64| reps.contains_key(k),
        |k: u64|
            if reps[k] == reps[a] || reps[k] == reps[b] {
                survivor(reps, ranks, a, b)
            } else {
                reps[k]
            },
    )
}

/// The ranks after the sets of `a` and `b` were merged: where two different
/// representatives of equal rank met, the survivor's rank grew by one.
pub open spec fn merged_ranks(reps: Map<u64, u64>, ranks: Map<u64, nat>, a: u64, b: u64) -> Map<
    u64,
    nat,
> {
    if reps[a] != reps[b] && ranks[reps[a]] == ranks[reps[b]] {
        ranks.insert(reps[a], ranks[reps[a]] + 1)
    } else {
        ranks
    }
}

impl Forest {
    /// The representatives represent themselves, and they are the keys of the
    /// roots.
    proof fn lemma_canonical(self)
        requires
            self.ok(),
        ensures
            canonical(self.reps()),
            roots(self.reps()) == self.root_keys(),
    {
        assert forall|k: u64| #[trigger] self.reps().contains_key(k) implies self.reps().contains_key(
            self.reps()[k],
        ) && self.reps()[self.reps()[k]] == self.reps()[k] by {
            let j = self.slot[k] as int;
            self.lemma_root(j);
            let r = self.root(j);
            assert(self.slot[self.keys[r]] == r);
        }
        self.lemma_root_keys();
        assert(roots(self.reps()) =~= self.root_keys());
    }

    /// Linking the roots above `a` and `b` by rank merges their sets.
    proof fn lemma_merged(self, a: u64, b: u64, winner: int, loser: int)
        requires
            self.ok(),
            self.slot.contains_key(a),
            self.slot.contains_key(b),
            self.root(self.slot[a] as int) != self.root(self.slot[b] as int),
            winner == if self.rank[self.root(self.slot[a] as int)] < self.rank[self.root(
                self.slot[b] as int,
            )] {
                self.root(self.slot[b] as int)
            } else {
                self.root(self.slot[a] as int)
            },
            loser == if self.rank[self.root(self.slot[a] as int)] < self.rank[self.root(
                self.slot[b] as int,
            )] {
                self.root(self.slot[a] as int)
            } else {
                self.root(self.slot[b] as int)
            },
        ensures
            0 <= winner < self.parent.len(),
            0 <= loser < self.parent.len(),
            winner != loser,
            self.parent[winner] == winner,
            self.parent[loser] == loser,
            self.rank[loser] <= self.rank[winner],
            self.rank[winner] < 64,
            self.linked(winner, loser).ok(),
            self.root_keys().contains(self.keys[loser]),
            self.linked(winner, loser).root_keys() == self.root_keys().remove(self.keys[loser]),
            self.linked(winner, loser).reps() == merged(self.reps(), self.ranks(), a, b),
            self.linked(winner, loser).ranks() == merged_ranks(self.reps(), self.ranks(), a, b),
    {
        let ra = self.root(self.slot[a] as int);
        let rb = self.root(self.slot[b] as int);
        self.lemma_root(self.slot[a] as int);
        self.lemma_root(self.slot[b] as int);
        self.lemma_rank_bound(winner);
        self.lemma_linked(winner, loser);
        assert(self.slot[self.keys[ra]] == ra);
        assert(self.slot[self.keys[rb]] == rb);
        assert(self.ranks()[self.reps()[a]] == self.rank[ra]);
        assert(self.ranks()[self.reps()[b]] == self.rank[rb]);
        assert(survivor(self.reps(), self.ranks(), a, b) == self.keys[winner]);
        assert(self.linked(winner, loser).reps() =~= merged(self.reps(), self.ranks(), a, b)) by {
            assert forall|k: u64| self.slot.contains_key(k) implies self.linked(
                winner,
                loser,
            ).reps()[k] == merged(self.reps(), self.ranks(), a, b)[k] by {
                let j = self.slot[k] as int;
                self.lemma_root(j);
                let r = self.root(j);
                assert(self.slot[self.keys[r]] == r);
            }
        }
        assert(self.linked(winner, loser).ranks() =~= merged_ranks(
            self.reps(),
            self.ranks(),
            a,
            b,
        ));
    }
}

impl View for UnionFindInner {
    type V = Map<u64, u64>;

    /// The representative of each registered key.
    closed spec fn view(&self) -> Map<u64, u64> {
        self.forest().reps()
    }
}

impl UnionFindInner {
    spec fn forest(&self) -> Forest {
        Forest {
            slot: self.key_to_idx@,
            keys: self.idx_to_key@,
            parent: self.parent@,
            rank: self.rank@,
        }
    }

    /// The structure is well formed: keys and slots correspond, parent
    /// pointers lead to a root along strictly growing ranks, and the count is
    /// the number of roots.
    pub closed spec fn wf(&self) -> bool {
        &&& self.forest().ok()
        &&& self.count == self.forest().root_keys().len()
    }

    /// The rank byte kept for each registered key.
    pub closed spec fn ranks(&self) -> Map<u64, nat> {
        self.forest().ranks()
    }

    /// In a well-formed structure the registered keys are finitely many, each
    /// has a rank, and each representative represents itself.
    pub proof fn lemma_wf(&self)
        requires
            self.wf(),
        ensures
            self@.dom().finite(),
            self.ranks().dom() == self@.dom(),
            canonical(self@),
    {
        self.forest().lemma_canonical();
        assert(self@.dom() =~= self.key_to_idx@.dom());
        assert(self.ranks().dom() =~= self.key_to_idx@.dom());
    }

    /// The count kept is the number of representatives.
    proof fn lemma_count(&self)
        requires
            self.wf(),
        ensures
            self.count == roots(self@).len(),
    {
        self.forest().lemma_canonical();
    }

    /// A structure with no key.
    pub fn new() -> (uf: Self)
        ensures
            uf.wf(),
            uf@ == Map::<u64, u64>::empty(),
            uf.ranks() == Map::<u64, nat>::empty(),
    {
        let uf = Self {
            key_to_idx: HashMap::new(),
            idx_to_key: Vec::new(),
            parent: Vec::new(),
            rank: Vec::new(),
            count: 0,
        };
        proof {
            assert(uf.forest().root_keys() =~= Set::<u64>::empty());
            assert(uf@ =~= Map::<u64, u64>::empty());
            assert(uf.ranks() =~= Map::<u64, nat>::empty());
        }
        uf
    }

    /// Whether `x` is registered.
    pub fn contains(&self, x: u64) -> (b: bool)
        ensures
            b == self@.contains_key(x),
    {
        self.key_to_idx.contains_key(&x)
    }

    /// Registers `x` as a set of its own, unless it is registered already.
    pub fn make_set(&mut self, x: u64)
        requires
            old(self).wf(),
        ensures
            final(self).wf(),
            final(self)@ == with_singleton(old(self)@, x),
            final(self).ranks() == with_singleton_rank(old(self).ranks(), x),
            roots(final(self)@).len() == roots(old(self)@).len() + if old(self)@.contains_key(x) {
                0nat
            } else {
                1nat
            },
    {
        proof {
            self.lemma_wf();
            self.lemma_count();
        }
        if self.key_to_idx.contains_key(&x) {
            return ;
        }
        let idx = self.parent.len();
        self.key_to_idx.insert(x, idx);
        self.idx_to_key.push(x);
        self.parent.push(idx);
        self.rank.push(0);
        proof {
            let f = old(self).forest();
            assert(self.parent.len() == self.parent@.len());
            f.lemma_root_keys();
            f.lemma_registered(x);
            assert(self.forest() =~= f.registered(x));
            self.forest().lemma_root_keys();
            assert(self.key_to_idx@.dom().len() == self.key_to_idx.len());
        }
        self.count += 1;
        proof {
            self.lemma_count();
        }
    }

    /// The root above slot `idx`. On the way up, each slot that is passed is
    /// pointed to its grandparent.
    fn find_idx(&mut self, mut idx: usize) -> (root: usize)
        requires
            old(self).wf(),
            idx < old(self).parent@.len(),
        ensures
            final(self).wf(),
            final(self).key_to_idx@ == old(self).key_to_idx@,
            final(self).idx_to_key@ == old(self).idx_to_key@,
            final(self).rank@ == old(self).rank@,
            final(self).parent@.len() == old(self).parent@.len(),
            final(self).count == old(self).count,
            final(self)@ == old(self)@,
            final(self).ranks() == old(self).ranks(),
            forall|i: int|
                0 <= i < old(self).parent@.len() ==> #[trigger] final(self).forest().root(i) == old(
                    self,
                ).forest().root(i),
            root == old(self).forest().root(idx as int),
    {
        let ghost start = idx as int;
        while self.parent[idx] != idx
            invariant
                self.wf(),
                self.key_to_idx@ == old(self).key_to_idx@,
                self.idx_to_key@ == old(self).idx_to_key@,
                self.rank@ == old(self).rank@,
                self.parent@.len() == old(self).parent@.len(),
                self.count == old(self).count,
                self@ == old(self)@,
                self.ranks() == old(self).ranks(),
                forall|i: int|
                    0 <= i < old(self).parent@.len() ==> #[trigger] self.forest().root(i) == old(
                        self,
                    ).forest().root(i),
                idx < self.parent@.len(),
                self.forest().root(idx as int) == old(self).forest().root(start),
            decreases 255 - self.rank@[idx as int],
        {
            let ghost f = self.forest();
            let p = self.parent[idx];
            proof {
                f.lemma_root(idx as int);
                f.lemma_root(p as int);
                f.lemma_halved(idx as int);
            }
            let grandparent = self.parent[p];
            self.parent[idx] = grandparent;
            proof {
                assert(self.forest() =~= f.halved(idx as int));
            }
            idx = grandparent;
        }
        proof {
            self.forest().lemma_root(idx as int);
        }
        idx
    }

    /// The representative of the set that holds `x`.
    pub fn find(&mut self, x: u64) -> (r: u64)
        requires
            old(self).wf(),
            old(self)@.contains_key(x),
        ensures
            final(self).wf(),
            final(self)@ == old(self)@,
            final(self).ranks() == old(self).ranks(),
            r == old(self)@[x],
    {
        let idx = *self.key_to_idx.get(&x).unwrap();
        let root = self.find_idx(idx);
        proof {
            old(self).forest().lemma_root(idx as int);
        }
        self.idx_to_key[root]
    }

    /// Merges the sets that hold `a` and `b`.
    ///
    /// Of two different representatives the one of lower rank goes under the
    /// other; if the ranks are equal, that of `b` goes under that of `a`,
    /// whose rank grows by one.
    pub fn union(&mut self, a: u64, b: u64)
        requires
            old(self).wf(),
            old(self)@.contains_key(a),
            old(self)@.contains_key(b),
        ensures
            final(self).wf(),
            final(self)@ == merged(old(self)@, old(self).ranks(), a, b),
            final(self).ranks() == merged_ranks(old(self)@, old(self).ranks(), a, b),
            roots(final(self)@).len() == roots(old(self)@).len() - if same_set(old(self)@, a, b) {
                0int
            } else {
                1int
            },
    {
        proof {
            self.lemma_count();
        }
        let ia = *self.key_to_idx.get(&a).unwrap();
        let ib = *self.key_to_idx.get(&b).unwrap();
        let mut ra = self.find_idx(ia);
        let mut rb = self.find_idx(ib);
        let ghost f = self.forest();
        proof {
            f.lemma_root(ia as int);
            f.lemma_root(ib as int);
            assert(f.slot[f.keys[ra as int]] == ra);
            assert(f.slot[f.keys[rb as int]] == rb);
            assert(old(self)@[a] == f.keys[ra as int]);
            assert(old(self)@[b] == f.keys[rb as int]);
            assert(same_set(old(self)@, a, b) <==> ra == rb);
        }
        if ra == rb {
            proof {
                assert(self@ =~= merged(old(self)@, old(self).ranks(), a, b));
            }
            return ;
        }
        if self.rank[ra] < self.rank[rb] {
            std::mem::swap(&mut ra, &mut rb);
        }
        proof {
            f.lemma_root_keys();
            f.lemma_merged(a, b, ra as int, rb as int);
        }
        self.parent[rb] = ra;
        if self.rank[ra] == self.rank[rb] {
            self.rank[ra] += 1;
        }
        proof {
            assert(self.forest() =~= f.linked(ra as int, rb as int));
        }
        self.count -= 1;
        proof {
            self.lemma_count();
        }
    }

    /// Number of sets.
    pub fn component_count(&self) -> (n: usize)
        requires
            self.wf(),
        ensures
            n == roots(self@).len(),
            n <= self@.dom().len(),
            self@.dom().len() > 0 ==> n >= 1,
    {
        proof {
            self.forest().lemma_root_keys();
            self.lemma_count();
            assert(self@.dom() =~= self.key_to_idx@.dom());
        }
        self.count
    }
}

/// Merging the sets of `a` and `b` gives the same sets whichever of the two
/// is named first: both end in one set, the same keys are together, and as
/// many sets are left. Only which key represents the merged set may differ.
pub proof fn lemma_union_symmetric(reps: Map<u64, u64>, ranks: Map<u64, nat>, a: u64, b: u64)
    requires
        reps.dom().finite(),
        canonical(reps),
        reps.contains_key(a),
        reps.contains_key(b),
    ensures
        same_set(merged(reps, ranks, a, b), a, b),
        same_set(merged(reps, ranks, b, a), a, b),
        forall|x: u64, y: u64|
            reps.contains_key(x) && reps.contains_key(y) ==> (#[trigger] same_set(
                merged(reps, ranks, a, b),
                x,
                y,
            ) <==> same_set(merged(reps, ranks, b, a), x, y)),
        roots(merged(reps, ranks, a, b)).len() == roots(merged(reps, ranks, b, a)).len(),
{
    let m1 = merged(reps, ranks, a, b);
    let m2 = merged(reps, ranks, b, a);
    let w1 = survivor(reps, ranks, a, b);
    let w2 = survivor(reps, ranks, b, a);
    let l1 = if w1 == reps[a] { reps[b] } else { reps[a] };
    let l2 = if w2 == reps[a] { reps[b] } else { reps[a] };
    assert(reps.contains_key(reps[a]) && reps.contains_key(reps[b]));
    assert(roots(reps).subset_of(reps.dom()));
    lemma_len_subset(roots(reps), reps.dom());
    if reps[a] == reps[b] {
        assert(m1 =~= m2);
    } else {
        assert(roots(m1) =~= roots(reps).remove(l1));
        assert(roots(m2) =~= roots(reps).remove(l2));
        assert(roots(reps).contains(l1));
        assert(roots(reps).contains(l2));
    }
}

} // verus!
