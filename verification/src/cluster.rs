use crate::metric::{distance, lemma_distance_symmetric};
use crate::unionfind::{canonical, merged, roots, same_set, survivor};
use vstd::prelude::*;
use vstd::set_lib::{lemma_len_subset, lemma_map_size};

verus! {

/// `path` runs through `hashes` in steps of at most `radius`.
pub open spec fn is_path(hashes: Set<u64>, radius: u32, path: Seq<u64>) -> bool {
    &&& path.len() > 0
    &&& forall|i: int| 0 <= i < path.len() ==> hashes.contains(#[trigger] path[i])
    &&& forall|i: int|
        0 <= i < path.len() - 1 ==> distance(#[trigger] path[i], path[i + 1]) <= radius
}

/// `a` and `b` are joined by a chain of hashes, each within `radius` of the
/// next.
pub open spec fn connected(hashes: Set<u64>, radius: u32, a: u64, b: u64) -> bool {
    exists|path: Seq<u64>| #[trigger]
        is_path(hashes, radius, path) && path.first() == a && path.last() == b
}

/// `clusters` gives each hash a representative of its connected component:
/// two hashes have the same one exactly if they are connected.
pub open spec fn clustered(hashes: Set<u64>, radius: u32, clusters: Map<u64, u64>) -> bool {
    &&& clusters.dom() == hashes
    &&& canonical(clusters)
    &&& forall|a: u64, b: u64|
        hashes.contains(a) && hashes.contains(b) ==> (#[trigger] same_set(clusters, a, b)
            <==> connected(hashes, radius, a, b))
}

/// The connected component of `a`: the hashes that are connected to it.
pub open spec fn component(hashes: Set<u64>, radius: u32, a: u64) -> Set<u64> {
    Set::new(|b: u64| connected(hashes, radius, a, b))
}

/// The connected components of `hashes`.
pub open spec fn components(hashes: Set<u64>, radius: u32) -> Set<Set<u64>> {
    Set::new(
        |c: Set<u64>| exists|a: u64| hashes.contains(a) && c == #[trigger] component(hashes, radius, a),
    )
}

/// Every hash is connected to itself.
pub proof fn lemma_connected_reflexive(hashes: Set<u64>, radius: u32, a: u64)
    requires
        hashes.contains(a),
    ensures
        connected(hashes, radius, a, a),
{
    let path = seq![a];
    assert(is_path(hashes, radius, path) && path.first() == a && path.last() == a);
}

/// Two hashes within `radius` of each other are connected.
pub proof fn lemma_connected_edge(hashes: Set<u64>, radius: u32, a: u64, b: u64)
    requires
        hashes.contains(a),
        hashes.contains(b),
        distance(a, b) <= radius,
    ensures
        connected(hashes, radius, a, b),
{
    let path = seq![a, b];
    assert(is_path(hashes, radius, path) && path.first() == a && path.last() == b);
}

/// Connection does not depend on the direction.
pub proof fn lemma_connected_symmetric(hashes: Set<u64>, radius: u32, a: u64, b: u64)
    requires
        connected(hashes, radius, a, b),
    ensures
        connected(hashes, radius, b, a),
{
    let path = choose|path: Seq<u64>| #[trigger]
        is_path(hashes, radius, path) && path.first() == a && path.last() == b;
    let back = path.reverse();
    assert forall|i: int| 0 <= i < back.len() - 1 implies distance(#[trigger] back[i], back[i + 1])
        <= radius by {
        let j = path.len() - 2 - i;
        assert(distance(path[j], path[j + 1]) <= radius);
        lemma_distance_symmetric(path[j], path[j + 1]);
    }
    assert(is_path(hashes, radius, back) && back.first() == b && back.last() == a);
}

/// Chains can be joined end to end.
pub proof fn lemma_connected_transitive(hashes: Set<u64>, radius: u32, a: u64, b: u64, c: u64)
    requires
        connected(hashes, radius, a, b),
        connected(hashes, radius, b, c),
    ensures
        connected(hashes, radius, a, c),
{
    let p = choose|path: Seq<u64>| #[trigger]
        is_path(hashes, radius, path) && path.first() == a && path.last() == b;
    let q = choose|path: Seq<u64>| #[trigger]
        is_path(hashes, radius, path) && path.first() == b && path.last() == c;
    let path = p + q;
    assert forall|i: int| 0 <= i < path.len() - 1 implies distance(#[trigger] path[i], path[i + 1])
        <= radius by {
        if i < p.len() - 1 {
            assert(distance(p[i], p[i + 1]) <= radius);
        } else if i == p.len() - 1 {
            assert(path[i] == b && path[i + 1] == b);
            crate::metric::lemma_distance_zero(b, b);
        } else {
            let j = i - p.len();
            assert(distance(q[j], q[j + 1]) <= radius);
        }
    }
    assert forall|i: int| 0 <= i < path.len() implies hashes.contains(#[trigger] path[i]) by {
        if i < p.len() {
            assert(hashes.contains(p[i]));
        } else {
            assert(hashes.contains(q[i - p.len()]));
        }
    }
    assert(is_path(hashes, radius, path) && path.first() == a && path.last() == c);
}

/// What is connected stays connected when hashes are added.
pub proof fn lemma_connected_grows(
    hashes: Set<u64>,
    more: Set<u64>,
    radius: u32,
    a: u64,
    b: u64,
)
    requires
        hashes.subset_of(more),
        connected(hashes, radius, a, b),
    ensures
        connected(more, radius, a, b),
{
    let path = choose|path: Seq<u64>| #[trigger]
        is_path(hashes, radius, path) && path.first() == a && path.last() == b;
    assert(is_path(more, radius, path) && path.first() == a && path.last() == b);
}

/// Connected hashes have the same connected component.
pub proof fn lemma_component_shared(hashes: Set<u64>, radius: u32, a: u64, b: u64)
    requires
        connected(hashes, radius, a, b),
    ensures
        component(hashes, radius, a) == component(hashes, radius, b),
{
    lemma_connected_symmetric(hashes, radius, a, b);
    assert forall|v: u64|
        component(hashes, radius, a).contains(v) <==> component(hashes, radius, b).contains(v) by {
        if connected(hashes, radius, a, v) {
            lemma_connected_transitive(hashes, radius, b, a, v);
        }
        if connected(hashes, radius, b, v) {
            lemma_connected_transitive(hashes, radius, a, b, v);
        }
    }
    assert(component(hashes, radius, a) =~= component(hashes, radius, b));
}

/// Where the clusters are the connected components, there are as many
/// representatives as connected components. So the number of clusters
/// depends on the hashes and the radius alone, not on the order in which
/// the hashes came.
pub proof fn lemma_cluster_count(hashes: Set<u64>, radius: u32, clusters: Map<u64, u64>)
    requires
        hashes.finite(),
        clustered(hashes, radius, clusters),
    ensures
        roots(clusters).finite(),
        components(hashes, radius).finite(),
        roots(clusters).len() == components(hashes, radius).len(),
{
    let reps = roots(clusters);
    let parts = components(hashes, radius);
    let f = |k: u64| component(hashes, radius, k);
    assert(reps.subset_of(hashes));
    lemma_len_subset(reps, hashes);
    assert forall|k1: u64, k2: u64|
        reps.contains(k1) && reps.contains(k2) && #[trigger] f(k1) == #[trigger] f(k2) implies k1
        == k2 by {
        lemma_connected_reflexive(hashes, radius, k2);
        assert(component(hashes, radius, k2).contains(k2));
        assert(component(hashes, radius, k1).contains(k2));
        assert(same_set(clusters, k1, k2));
    }
    assert forall|c: Set<u64>| reps.map(f).contains(c) <==> parts.contains(c) by {
        if reps.map(f).contains(c) {
            let k = choose|k: u64| reps.contains(k) && c == f(k);
            assert(hashes.contains(k) && c == component(hashes, radius, k));
        }
        if parts.contains(c) {
            let a = choose|a: u64| hashes.contains(a) && c == #[trigger] component(hashes, radius, a);
            let k = clusters[a];
            assert(clusters.contains_key(a));
            assert(same_set(clusters, a, k));
            lemma_component_shared(hashes, radius, a, k);
            assert(reps.contains(k) && c == f(k));
        }
    }
    assert(reps.map(f) =~= parts);
    lemma_map_size(reps, parts, f);
}

/// `a` is `x`, or shares its cluster with a hash within `radius` of `x`.
pub open spec fn touched(
    hashes: Set<u64>,
    radius: u32,
    clusters: Map<u64, u64>,
    x: u64,
    a: u64,
) -> bool {
    a == x || (hashes.contains(a) && exists|n: u64| #[trigger]
        hashes.contains(n) && distance(x, n) <= radius && same_set(clusters, a, n))
}

/// `after` is `before` with the new hash `x` taken in: `x` and every cluster
/// that holds a hash within `radius` of `x` have become one cluster, and the
/// other clusters are as they were.
pub open spec fn absorbed(
    hashes: Set<u64>,
    radius: u32,
    before: Map<u64, u64>,
    x: u64,
    after: Map<u64, u64>,
) -> bool {
    &&& after.dom() == hashes.insert(x)
    &&& canonical(after)
    &&& forall|a: u64, b: u64|
        after.contains_key(a) && after.contains_key(b) ==> (#[trigger] same_set(after, a, b)
            <==> a == b || (hashes.contains(a) && hashes.contains(b) && same_set(before, a, b)) || (
        touched(hashes, radius, before, x, a) && touched(hashes, radius, before, x, b)))
}

/// What is touched is connected to `x` once `x` is among the hashes.
proof fn lemma_touched_connected(
    hashes: Set<u64>,
    radius: u32,
    before: Map<u64, u64>,
    x: u64,
    a: u64,
)
    requires
        clustered(hashes, radius, before),
        touched(hashes, radius, before, x, a),
    ensures
        connected(hashes.insert(x), radius, a, x),
{
    let more = hashes.insert(x);
    if a == x {
        lemma_connected_reflexive(more, radius, x);
    } else {
        let n = choose|n: u64| #[trigger]
            hashes.contains(n) && distance(x, n) <= radius && same_set(before, a, n);
        assert(connected(hashes, radius, a, n));
        lemma_connected_grows(hashes, more, radius, a, n);
        lemma_distance_symmetric(x, n);
        lemma_connected_edge(more, radius, n, x);
        lemma_connected_transitive(more, radius, a, n, x);
    }
}

/// Once `x` was taken in, a chain stays within one cluster.
proof fn lemma_path_one_cluster(
    hashes: Set<u64>,
    radius: u32,
    before: Map<u64, u64>,
    x: u64,
    after: Map<u64, u64>,
    path: Seq<u64>,
    i: int,
)
    requires
        clustered(hashes, radius, before),
        !hashes.contains(x),
        absorbed(hashes, radius, before, x, after),
        is_path(hashes.insert(x), radius, path),
        0 <= i < path.len(),
    ensures
        same_set(after, path[0], path[i]),
    decreases i,
{
    if i > 0 {
        lemma_path_one_cluster(hashes, radius, before, x, after, path, i - 1);
        let u = path[i - 1];
        let v = path[i];
        assert(hashes.insert(x).contains(u) && hashes.insert(x).contains(v));
        assert(distance(u, v) <= radius);
        if u == x && v == x {
        } else if u == x {
            assert(same_set(before, v, v));
            assert(touched(hashes, radius, before, x, v));
        } else if v == x {
            lemma_distance_symmetric(u, v);
            assert(same_set(before, u, u));
            assert(touched(hashes, radius, before, x, u));
        } else {
            lemma_connected_edge(hashes, radius, u, v);
            assert(same_set(before, u, v));
        }
        assert(same_set(after, u, v));
    }
}

/// Taking a new hash in keeps the clusters equal to the connected
/// components.
pub proof fn lemma_absorbed_clustered(
    hashes: Set<u64>,
    radius: u32,
    before: Map<u64, u64>,
    x: u64,
    after: Map<u64, u64>,
)
    requires
        clustered(hashes, radius, before),
        !hashes.contains(x),
        absorbed(hashes, radius, before, x, after),
    ensures
        clustered(hashes.insert(x), radius, after),
{
    let more = hashes.insert(x);
    assert forall|a: u64, b: u64| more.contains(a) && more.contains(b) implies (#[trigger] same_set(
        after,
        a,
        b,
    ) <==> connected(more, radius, a, b)) by {
        if same_set(after, a, b) {
            if a == b {
                lemma_connected_reflexive(more, radius, a);
            } else if hashes.contains(a) && hashes.contains(b) && same_set(before, a, b) {
                assert(connected(hashes, radius, a, b));
                lemma_connected_grows(hashes, more, radius, a, b);
            } else {
                lemma_touched_connected(hashes, radius, before, x, a);
                lemma_touched_connected(hashes, radius, before, x, b);
                lemma_connected_symmetric(more, radius, b, x);
                lemma_connected_transitive(more, radius, a, x, b);
            }
        }
        if connected(more, radius, a, b) {
            let path = choose|path: Seq<u64>| #[trigger]
                is_path(more, radius, path) && path.first() == a && path.last() == b;
            lemma_path_one_cluster(hashes, radius, before, x, after, path, path.len() - 1);
        }
    }
}

/// The representative of `a` at the start is that of `x` or of one of the
/// first `i` neighbours.
pub open spec fn hit(start: Map<u64, u64>, x: u64, neighbors: Seq<u64>, i: int, a: u64) -> bool {
    same_set(start, a, x) || exists|j: int| 0 <= j < i && same_set(start, a, #[trigger] neighbors[j])
}

/// State of the merging after `x` was merged with the first `i` neighbours:
/// besides what was together at the start, all that was hit is together.
pub open spec fn merging(
    start: Map<u64, u64>,
    x: u64,
    neighbors: Seq<u64>,
    i: int,
    now: Map<u64, u64>,
) -> bool {
    &&& now.dom() == start.dom()
    &&& canonical(now)
    &&& forall|a: u64, b: u64|
        now.contains_key(a) && now.contains_key(b) ==> (#[trigger] same_set(now, a, b)
            <==> same_set(start, a, b) || (hit(start, x, neighbors, i, a) && hit(
            start,
            x,
            neighbors,
            i,
            b,
        )))
}

/// Before any merging, what is together is what was together at the start.
pub proof fn lemma_merging_start(start: Map<u64, u64>, x: u64, neighbors: Seq<u64>)
    requires
        canonical(start),
    ensures
        merging(start, x, neighbors, 0, start),
{
}

/// What the next neighbour adds to the keys that are hit.
proof fn lemma_hit_next(start: Map<u64, u64>, x: u64, neighbors: Seq<u64>, i: int, a: u64)
    requires
        0 <= i < neighbors.len(),
    ensures
        hit(start, x, neighbors, i + 1, a) <==> hit(start, x, neighbors, i, a) || same_set(
            start,
            a,
            neighbors[i],
        ),
{
    if hit(start, x, neighbors, i + 1, a) && !same_set(start, a, x) {
        let j = choose|j: int| 0 <= j < i + 1 && same_set(start, a, #[trigger] neighbors[j]);
        if j < i {
            assert(hit(start, x, neighbors, i, a));
        }
    }
    if hit(start, x, neighbors, i, a) && !same_set(start, a, x) {
        let j = choose|j: int| 0 <= j < i && same_set(start, a, #[trigger] neighbors[j]);
        assert(0 <= j < i + 1 && same_set(start, a, neighbors[j]));
    }
    if same_set(start, a, neighbors[i]) {
        assert(0 <= i < i + 1 && same_set(start, a, neighbors[i]));
    }
}

/// Two keys are in one set after `x` and `nb` were merged exactly if they
/// were before or each was with `x` or with `nb`.
proof fn lemma_merged_pair(now: Map<u64, u64>, ranks: Map<u64, nat>, x: u64, nb: u64, a: u64, b: u64)
    requires
        canonical(now),
        now.contains_key(x),
        now.contains_key(nb),
        now.contains_key(a),
        now.contains_key(b),
    ensures
        same_set(merged(now, ranks, x, nb), a, b) <==> same_set(now, a, b) || ((same_set(now, a, x)
            || same_set(now, a, nb)) && (same_set(now, b, x) || same_set(now, b, nb))),
{
    assert(now.contains_key(now[x]) && now.contains_key(now[nb]));
}

/// After a merge every representative still represents itself.
proof fn lemma_merged_canonical(now: Map<u64, u64>, ranks: Map<u64, nat>, x: u64, nb: u64)
    requires
        canonical(now),
        now.contains_key(x),
        now.contains_key(nb),
    ensures
        canonical(merged(now, ranks, x, nb)),
        merged(now, ranks, x, nb).dom() == now.dom(),
{
    let next = merged(now, ranks, x, nb);
    assert(now.contains_key(now[x]) && now.contains_key(now[nb]));
    assert(next.dom() =~= now.dom());
    assert forall|k: u64| #[trigger] next.contains_key(k) implies next.contains_key(next[k])
        && next[next[k]] == next[k] by {
        assert(now.contains_key(now[k]) && now[now[k]] == now[k]);
    }
}

/// One step of the merging, for one pair of keys.
proof fn lemma_merging_pair(
    start: Map<u64, u64>,
    x: u64,
    neighbors: Seq<u64>,
    i: int,
    now: Map<u64, u64>,
    ranks: Map<u64, nat>,
    a: u64,
    b: u64,
)
    requires
        merging(start, x, neighbors, i, now),
        0 <= i < neighbors.len(),
        now.contains_key(x),
        now.contains_key(neighbors[i]),
        now.contains_key(a),
        now.contains_key(b),
    ensures
        same_set(merged(now, ranks, x, neighbors[i]), a, b) <==> same_set(start, a, b) || (hit(
            start,
            x,
            neighbors,
            i + 1,
            a,
        ) && hit(start, x, neighbors, i + 1, b)),
{
    let nb = neighbors[i];
    lemma_merged_pair(now, ranks, x, nb, a, b);
    lemma_hit_next(start, x, neighbors, i, a);
    lemma_hit_next(start, x, neighbors, i, b);
    assert(same_set(start, x, x));
    assert(hit(start, x, neighbors, i, x));
    let ha = hit(start, x, neighbors, i, a);
    let hb = hit(start, x, neighbors, i, b);
    let hn = hit(start, x, neighbors, i, nb);
    assert(same_set(now, a, b) <==> same_set(start, a, b) || (ha && hb));
    assert(same_set(now, a, x) <==> same_set(start, a, x) || ha);
    assert(same_set(now, b, x) <==> same_set(start, b, x) || hb);
    assert(same_set(now, a, nb) <==> same_set(start, a, nb) || (ha && hn));
    assert(same_set(now, b, nb) <==> same_set(start, b, nb) || (hb && hn));
}

/// Merging `x` with the next neighbour carries the merging one step on.
pub proof fn lemma_merging_step(
    start: Map<u64, u64>,
    x: u64,
    neighbors: Seq<u64>,
    i: int,
    now: Map<u64, u64>,
    ranks: Map<u64, nat>,
)
    requires
        merging(start, x, neighbors, i, now),
        0 <= i < neighbors.len(),
        now.contains_key(x),
        now.contains_key(neighbors[i]),
    ensures
        merging(start, x, neighbors, i + 1, merged(now, ranks, x, neighbors[i])),
{
    let next = merged(now, ranks, x, neighbors[i]);
    lemma_merged_canonical(now, ranks, x, neighbors[i]);
    assert forall|a: u64, b: u64| next.contains_key(a) && next.contains_key(b) implies (
    #[trigger] same_set(next, a, b) <==> same_set(start, a, b) || (hit(
        start,
        x,
        neighbors,
        i + 1,
        a,
    ) && hit(start, x, neighbors, i + 1, b))) by {
        lemma_merging_pair(start, x, neighbors, i, now, ranks, a, b);
    }
}

/// Once `x`, registered alone, was merged with each hash within `radius` of
/// it, `x` has been taken in.
pub proof fn lemma_merging_done(
    hashes: Set<u64>,
    radius: u32,
    before: Map<u64, u64>,
    x: u64,
    neighbors: Seq<u64>,
    now: Map<u64, u64>,
)
    requires
        before.dom() == hashes,
        canonical(before),
        !hashes.contains(x),
        forall|v: u64| neighbors.contains(v) <==> hashes.contains(v) && distance(x, v) <= radius,
        merging(before.insert(x, x), x, neighbors, neighbors.len() as int, now),
    ensures
        absorbed(hashes, radius, before, x, now),
{
    let start = before.insert(x, x);
    let n = neighbors.len() as int;
    assert(now.dom() =~= hashes.insert(x));
    assert forall|a: u64| #[trigger] now.contains_key(a) implies (hit(start, x, neighbors, n, a)
        <==> touched(hashes, radius, before, x, a)) by {
        if a != x {
            assert(before.contains_key(a));
            assert(before.contains_key(before[a]));
        }
        if hit(start, x, neighbors, n, a) && a != x {
            let j = choose|j: int| 0 <= j < n && same_set(start, a, #[trigger] neighbors[j]);
            let v = neighbors[j];
            assert(neighbors.contains(v));
            assert(hashes.contains(v) && distance(x, v) <= radius && same_set(before, a, v));
        }
        if touched(hashes, radius, before, x, a) && a != x {
            let v = choose|v: u64| #[trigger]
                hashes.contains(v) && distance(x, v) <= radius && same_set(before, a, v);
            assert(neighbors.contains(v));
            let j = choose|j: int| 0 <= j < n && neighbors[j] == v;
            assert(same_set(start, a, neighbors[j]));
        }
    }
    assert forall|a: u64, b: u64| now.contains_key(a) && now.contains_key(b) implies (
    #[trigger] same_set(now, a, b) <==> a == b || (hashes.contains(a) && hashes.contains(b)
        && same_set(before, a, b)) || (touched(hashes, radius, before, x, a) && touched(
        hashes,
        radius,
        before,
        x,
        b,
    ))) by {
        if a != x {
            assert(before.contains_key(a));
            assert(before.contains_key(before[a]));
        }
        if b != x {
            assert(before.contains_key(b));
            assert(before.contains_key(before[b]));
        }
        assert(hit(start, x, neighbors, n, a) <==> touched(hashes, radius, before, x, a));
        assert(hit(start, x, neighbors, n, b) <==> touched(hashes, radius, before, x, b));
    }
}

} // verus!
