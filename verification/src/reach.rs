//! Paths, reachability, and shortest hop-count distances, stated over the map
//! view of a graph. These spec functions are the vocabulary of every traversal
//! and sampling contract in the crate.

use vstd::prelude::*;
use vstd::set_lib::lemma_len_subset;
use crate::graph::{Rep, adj_of, al_contains, al_index, al_neighbors};

verus! {

/// A single directed adjacency step: `v` occurs in `u`'s neighbor list.
pub open spec fn edge_step(g: Map<usize, Seq<usize>>, u: usize, v: usize) -> bool {
    g.contains_key(u) && g[u].contains(v)
}

/// `p` is a walk in `g`: nonempty, and each node is followed by one of its neighbors.
pub open spec fn is_path(g: Map<usize, Seq<usize>>, p: Seq<usize>) -> bool {
    p.len() >= 1 && forall|i: int| 0 <= i < p.len() - 1 ==> edge_step(g, #[trigger] p[i], p[i + 1])
}

/// `p` is a walk from `s` to `t`.
pub open spec fn connects(g: Map<usize, Seq<usize>>, p: Seq<usize>, s: usize, t: usize) -> bool {
    is_path(g, p) && p.first() == s && p.last() == t
}

/// `t` can be reached from `s` (in zero or more steps; every node reaches itself).
pub open spec fn reaches(g: Map<usize, Seq<usize>>, s: usize, t: usize) -> bool {
    exists|p: Seq<usize>| connects(g, p, s, t)
}

/// The connected component of `s`: every node reachable from `s`.
pub open spec fn component(g: Map<usize, Seq<usize>>, s: usize) -> Set<usize> {
    Set::new(|t: usize| reaches(g, s, t))
}

/// Some walk of exactly `d` hops (`d + 1` nodes) leads from `s` to `t`.
pub open spec fn dist_at_most(g: Map<usize, Seq<usize>>, s: usize, t: usize, d: nat) -> bool {
    exists|p: Seq<usize>| connects(g, p, s, t) && p.len() == d + 1
}

/// `d` is the least hop count of any walk from `s` to `t`.
pub open spec fn is_shortest_dist(g: Map<usize, Seq<usize>>, s: usize, t: usize, d: nat) -> bool {
    dist_at_most(g, s, t, d) && forall|p: Seq<usize>| connects(g, p, s, t) ==> p.len() >= d + 1
}

/// Every node reaches itself by the one-node walk.
pub proof fn lemma_reaches_self(g: Map<usize, Seq<usize>>, s: usize)
    ensures
        reaches(g, s, s),
{
    let p = seq![s];
    assert(connects(g, p, s, s));
}

/// Reachability extends along an edge.
pub proof fn lemma_reaches_step(g: Map<usize, Seq<usize>>, s: usize, u: usize, v: usize)
    requires
        reaches(g, s, u),
        edge_step(g, u, v),
    ensures
        reaches(g, s, v),
{
    let p = choose|p: Seq<usize>| connects(g, p, s, u);
    let q = p.push(v);
    assert(q.last() == v);
    assert(forall|i: int| 0 <= i < p.len() ==> q[i] == p[i]);
    assert(forall|i: int| 0 <= i < q.len() - 1 ==> edge_step(g, #[trigger] q[i], q[i + 1])) by {
        assert(q[p.len() - 1] == u);
    }
    assert(connects(g, q, s, v));
}

/// A walk that starts inside a set closed under adjacency ends inside it.
pub proof fn lemma_path_stays_in_closed_set(
    g: Map<usize, Seq<usize>>,
    vset: Set<usize>,
    p: Seq<usize>,
)
    requires
        is_path(g, p),
        vset.contains(p.first()),
        forall|u: usize, v: usize|
            vset.contains(u) && #[trigger] edge_step(g, u, v) ==> vset.contains(v),
    ensures
        vset.contains(p.last()),
    decreases p.len(),
{
    if p.len() > 1 {
        let q = p.drop_last();
        assert(is_path(g, q)) by {
            assert(forall|i: int| 0 <= i < q.len() - 1 ==> edge_step(g, #[trigger] q[i], q[i + 1]))
                by {
                assert(forall|i: int| 0 <= i < q.len() - 1 ==> #[trigger] q[i] == p[i] && q[i + 1]
                    == p[i + 1]);
            }
        }
        lemma_path_stays_in_closed_set(g, vset, q);
        assert(edge_step(g, p[p.len() - 2], p[p.len() - 1]));
    }
}

/// A set that contains `s` and is closed under adjacency contains the whole
/// component of `s`.
pub proof fn lemma_closed_set_contains_component(
    g: Map<usize, Seq<usize>>,
    vset: Set<usize>,
    s: usize,
    t: usize,
)
    requires
        vset.contains(s),
        forall|u: usize, v: usize|
            vset.contains(u) && #[trigger] edge_step(g, u, v) ==> vset.contains(v),
        reaches(g, s, t),
    ensures
        vset.contains(t),
{
    let p = choose|p: Seq<usize>| connects(g, p, s, t);
    lemma_path_stays_in_closed_set(g, vset, p);
}

/// `t` can be reached from `s` along a walk whose every node lies in `sset`.
pub open spec fn reaches_within(
    g: Map<usize, Seq<usize>>,
    sset: Set<usize>,
    s: usize,
    t: usize,
) -> bool {
    exists|p: Seq<usize>|
        connects(g, p, s, t) && (forall|i: int| 0 <= i < p.len() ==> sset.contains(#[trigger] p[i]))
}

/// Reachability within a set survives enlarging the set.
pub proof fn lemma_reaches_within_mono(
    g: Map<usize, Seq<usize>>,
    s1: Set<usize>,
    s2: Set<usize>,
    s: usize,
    t: usize,
)
    requires
        reaches_within(g, s1, s, t),
        s1.subset_of(s2),
    ensures
        reaches_within(g, s2, s, t),
{
    let p = choose|p: Seq<usize>|
        connects(g, p, s, t) && (forall|i: int|
            0 <= i < p.len() ==> s1.contains(#[trigger] p[i]));
    assert(forall|i: int| 0 <= i < p.len() ==> s2.contains(#[trigger] p[i]));
}

/// Reachability within a set extends along an edge to another set member.
pub proof fn lemma_reaches_within_step(
    g: Map<usize, Seq<usize>>,
    sset: Set<usize>,
    s: usize,
    u: usize,
    v: usize,
)
    requires
        reaches_within(g, sset, s, u),
        edge_step(g, u, v),
        sset.contains(v),
    ensures
        reaches_within(g, sset, s, v),
{
    let p = choose|p: Seq<usize>|
        connects(g, p, s, u) && (forall|i: int|
            0 <= i < p.len() ==> sset.contains(#[trigger] p[i]));
    let q = p.push(v);
    assert(q.last() == v);
    assert(forall|i: int| 0 <= i < p.len() ==> #[trigger] q[i] == p[i]);
    assert(is_path(g, q)) by {
        assert(forall|i: int| 0 <= i < q.len() - 1 ==> edge_step(g, #[trigger] q[i], q[i + 1]))
            by {
            assert(q[p.len() - 1] == u);
        }
    }
    assert(connects(g, q, s, v));
    assert(forall|i: int| 0 <= i < q.len() ==> sset.contains(#[trigger] q[i]));
}

/// The start node's shortest distance is zero.
pub proof fn lemma_start_distance_zero(g: Map<usize, Seq<usize>>, s: usize, d: nat)
    requires
        is_shortest_dist(g, s, s, d),
    ensures
        d == 0,
{
    let p = seq![s];
    assert(connects(g, p, s, s));
    assert(p.len() >= d + 1);
}

/// Shortest distances relax across an edge: a neighbor's least hop count is
/// at most one more than its source's.
pub proof fn lemma_distance_relaxation(
    g: Map<usize, Seq<usize>>,
    s: usize,
    u: usize,
    v: usize,
    du: nat,
    dv: nat,
)
    requires
        is_shortest_dist(g, s, u, du),
        is_shortest_dist(g, s, v, dv),
        edge_step(g, u, v),
    ensures
        dv <= du + 1,
{
    let p = choose|p: Seq<usize>| connects(g, p, s, u) && p.len() == du + 1;
    let q = p.push(v);
    assert(q.last() == v);
    assert(forall|i: int| 0 <= i < p.len() ==> #[trigger] q[i] == p[i]);
    assert(is_path(g, q)) by {
        assert(forall|i: int| 0 <= i < q.len() - 1 ==> edge_step(g, #[trigger] q[i], q[i + 1]))
            by {
            assert(q[p.len() - 1] == u);
        }
    }
    assert(connects(g, q, s, v));
    assert(q.len() >= dv + 1);
}

/// The least hop count between two nodes is unique. In particular, the walk
/// that two-node reconstruction returns has exactly the single-source
/// distance of its endpoint, plus one, as its node count.
pub proof fn lemma_shortest_dist_unique(
    g: Map<usize, Seq<usize>>,
    s: usize,
    t: usize,
    d1: nat,
    d2: nat,
)
    requires
        is_shortest_dist(g, s, t, d1),
        is_shortest_dist(g, s, t, d2),
    ensures
        d1 == d2,
{
    let p1 = choose|p: Seq<usize>| connects(g, p, s, t) && p.len() == d1 + 1;
    let p2 = choose|p: Seq<usize>| connects(g, p, s, t) && p.len() == d2 + 1;
    assert(p1.len() >= d2 + 1);
    assert(p2.len() >= d1 + 1);
}

/// The nodes a representation mentions at all: every key and every listed neighbor.
pub open spec fn known_set(es: Rep) -> Set<usize>
    decreases es.len(),
{
    if es.len() == 0 {
        Set::empty()
    } else {
        known_set(es.drop_last()).union(es.last().1.to_set().insert(es.last().0))
    }
}

/// `known_set` is finite.
pub proof fn lemma_known_set_finite(es: Rep)
    ensures
        known_set(es).finite(),
    decreases es.len(),
{
    if es.len() > 0 {
        lemma_known_set_finite(es.drop_last());
    }
}

/// Every entry's key and neighbors are in `known_set`.
pub proof fn lemma_known_set_covers(es: Rep, i: int)
    requires
        0 <= i < es.len(),
    ensures
        known_set(es).contains(es[i].0),
        forall|j: int| 0 <= j < es[i].1.len() ==> known_set(es).contains(#[trigger] es[i].1[j]),
    decreases es.len(),
{
    if i == es.len() - 1 {
        assert(forall|j: int| 0 <= j < es[i].1.len() ==> es[i].1.to_set().contains(#[trigger] es[i].1[j]));
    } else {
        lemma_known_set_covers(es.drop_last(), i);
        assert(es.drop_last()[i] == es[i]);
    }
}

/// The component of any node is finite: it sits inside the finitely many
/// mentioned nodes, plus the start node itself.
pub proof fn lemma_component_finite(es: Rep, s: usize)
    ensures
        component(adj_of(es), s).finite(),
        component(adj_of(es), s).len() >= 1,
{
    let g = adj_of(es);
    let bound = known_set(es).insert(s);
    lemma_known_set_finite(es);
    assert(component(g, s).subset_of(bound)) by {
        assert forall|t: usize| component(g, s).contains(t) implies bound.contains(t) by {
            let p = choose|p: Seq<usize>| connects(g, p, s, t);
            if p.len() == 1 {
                assert(t == s);
            } else {
                let u = p[p.len() - 2];
                assert(edge_step(g, u, t));
                assert(al_contains(es, u));
                let i = al_index(es, u);
                assert(g[u] == al_neighbors(es, u));
                let j = choose|j: int| 0 <= j < es[i].1.len() && es[i].1[j] == t;
                lemma_known_set_covers(es, i);
            }
        }
    }
    lemma_len_subset(component(g, s), bound);
    lemma_reaches_self(g, s);
    assert(component(g, s).contains(s));
    assert(component(g, s).remove(s).len() == component(g, s).len() - 1);
}

} // verus!
