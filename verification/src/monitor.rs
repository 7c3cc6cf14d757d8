use crate::bktree::{inserted, within, BKTreeInner};
use crate::cluster::{
    absorbed, clustered, components, lemma_absorbed_clustered, lemma_cluster_count,
    lemma_merging_done, lemma_merging_start, lemma_merging_step, merging,
};
use crate::metric::distance;
use crate::unionfind::{roots, UnionFindInner};
use std::collections::HashSet;
use vstd::prelude::*;

verus! {

broadcast use vstd::std_specs::hash::group_hash_axioms;

/// Counts the clusters among the hashes seen so far, where two hashes belong
/// together if a chain of hashes joins them, each within the radius of the
/// next.
///
/// A BK-tree finds the neighbours of each new hash, a disjoint-set structure
/// merges the hash with them, and a set filters exact repeats.
pub struct CoverageTrackerInner {
    bktree: BKTreeInner,
    uf: UnionFindInner,
    exact: HashSet<u64>,
    radius: u32,
}

impl CoverageTrackerInner {
    /// The hashes seen so far.
    pub closed spec fn hashes(&self) -> Set<u64> {
        self.exact@
    }

    /// The radius within which two hashes count as neighbours.
    pub closed spec fn radius(&self) -> u32 {
        self.radius
    }

    /// The hashes held by the metric index, in the order in which they came.
    pub closed spec fn indexed(&self) -> Seq<u64> {
        self.bktree@
    }

    /// The representative that stands for the cluster of each hash.
    pub closed spec fn clusters(&self) -> Map<u64, u64> {
        self.uf@
    }

    /// The three structures hold the same hashes, and the sets of the
    /// disjoint-set structure are the connected components.
    pub closed spec fn wf(&self) -> bool {
        &&& self.bktree.wf()
        &&& self.uf.wf()
        &&& forall|v: u64| self.bktree@.contains(v) <==> self.exact@.contains(v)
        &&& clustered(self.exact@, self.radius, self.uf@)
    }

    /// In a well-formed tracker the clusters are the connected components of
    /// the hashes seen, which are finitely many.
    pub proof fn lemma_clustered(&self)
        requires
            self.wf(),
        ensures
            self.hashes().finite(),
            self.indexed().no_duplicates(),
            self.indexed().to_set() == self.hashes(),
            clustered(self.hashes(), self.radius(), self.clusters()),
    {
        self.bktree.lemma_no_duplicates();
        assert(self.bktree@.to_set() =~= self.exact@);
        self.uf.lemma_wf();
    }

    /// A tracker that has seen nothing.
    pub fn new(radius: u32) -> (t: Self)
        ensures
            t.wf(),
            t.radius() == radius,
            t.hashes() == Set::<u64>::empty(),
            t.indexed() == Seq::<u64>::empty(),
            t.clusters() == Map::<u64, u64>::empty(),
    {
        let t = Self {
            bktree: BKTreeInner::new(),
            uf: UnionFindInner::new(),
            exact: HashSet::new(),
            radius,
        };
        proof {
            assert(t.uf@.dom() =~= t.exact@);
        }
        t
    }

    /// Takes the hash `x` in and says whether it was new.
    ///
    /// A repeat changes nothing. A new hash forms one cluster together with
    /// every cluster that holds a hash within the radius of it.
    pub fn add_hash(&mut self, x: u64) -> (is_new: bool)
        requires
            old(self).wf(),
        ensures
            final(self).wf(),
            final(self).radius() == old(self).radius(),
            is_new == !old(self).hashes().contains(x),
            final(self).hashes() == old(self).hashes().insert(x),
            final(self).indexed() == inserted(old(self).indexed(), x),
            old(self).hashes().len() <= final(self).hashes().len(),
            !is_new ==> final(self).clusters() == old(self).clusters(),
            is_new ==> absorbed(
                old(self).hashes(),
                old(self).radius(),
                old(self).clusters(),
                x,
                final(self).clusters(),
            ),
            clustered(final(self).hashes(), final(self).radius(), final(self).clusters()),
    {
        if !self.exact.insert(x) {
            proof {
                assert(self.exact@ =~= old(self).exact@);
            }
            return false;
        }
        let neighbors = self.bktree.find_all_within(x, self.radius);

        proof {
            old(self).uf.lemma_wf();
            assert forall|v: u64|
                neighbors@.contains(v) <==> old(self).exact@.contains(v) && distance(x, v) <= old(
                    self,
                ).radius by {
                assert(neighbors@.to_set().contains(v) <==> within(
                    old(self).bktree@,
                    x,
                    old(self).radius,
                ).contains(v));
            }
            assert forall|j: int| 0 <= j < neighbors@.len() implies old(self).exact@.contains(
                #[trigger] neighbors@[j],
            ) by {
                assert(neighbors@.contains(neighbors@[j]));
            }
        }
        self.uf.make_set(x);
        let ghost before = old(self).uf@;
        let ghost start = before.insert(x, x);
        proof {
            self.uf.lemma_wf();
            lemma_merging_start(start, x, neighbors@);
        }
        for i in 0..neighbors.len()
            invariant
                self.uf.wf(),
                self.bktree == old(self).bktree,
                self.radius == old(self).radius,
                self.exact@ == old(self).exact@.insert(x),
                start.dom() == old(self).exact@.insert(x),
                forall|j: int|
                    0 <= j < neighbors@.len() ==> old(self).exact@.contains(#[trigger] neighbors@[j]),
                forall|v: u64|
                    neighbors@.contains(v) <==> old(self).exact@.contains(v) && distance(x, v)
                        <= old(self).radius,
                merging(start, x, neighbors@, i as int, self.uf@),
        {
            let nb = neighbors[i];
            proof {
                lemma_merging_step(start, x, neighbors@, i as int, self.uf@, self.uf.ranks());
            }
            self.uf.union(x, nb);
        }

        proof {
            lemma_merging_done(
                old(self).exact@,
                old(self).radius,
                before,
                x,
                neighbors@,
                self.uf@,
            );
            lemma_absorbed_clustered(old(self).exact@, old(self).radius, before, x, self.uf@);
        }
        self.bktree.add(x);
        proof {
            assert forall|v: u64| self.bktree@.contains(v) <==> self.exact@.contains(v) by {
                if v == x {
                    assert(self.bktree@[old(self).bktree@.len() as int] == x);
                }
                if old(self).bktree@.contains(v) {
                    let j = choose|j: int| 0 <= j < old(self).bktree@.len() && old(self).bktree@[j] == v;
                    assert(self.bktree@[j] == v);
                }
            }
        }
        true
    }

    /// Number of clusters among the hashes seen: the number of connected
    /// components.
    pub fn coverage_count(&self) -> (n: usize)
        requires
            self.wf(),
        ensures
            n == components(self.hashes(), self.radius()).len(),
            n == roots(self.clusters()).len(),
            n <= self.hashes().len(),
    {
        proof {
            self.lemma_clustered();
            lemma_cluster_count(self.exact@, self.radius, self.uf@);
        }
        self.uf.component_count()
    }

    /// Number of different hashes seen.
    pub fn total_unique(&self) -> (n: usize)
        ensures
            n == self.hashes().len(),
    {
        self.exact.len()
    }

    /// Forgets every hash. The radius stays.
    pub fn reset(&mut self)
        ensures
            final(self).wf(),
            final(self).radius() == old(self).radius(),
            final(self).hashes() == Set::<u64>::empty(),
            final(self).indexed() == Seq::<u64>::empty(),
            final(self).clusters() == Map::<u64, u64>::empty(),
            final(self).hashes().len() == 0,
            components(final(self).hashes(), final(self).radius()).len() == 0,
    {
        self.bktree = BKTreeInner::new();
        self.uf = UnionFindInner::new();
        self.exact.clear();
        proof {
            assert(self.uf@.dom() =~= self.exact@);
            assert(components(self.exact@, self.radius) =~= Set::<Set<u64>>::empty());
        }
    }
}

} // verus!
